//! Comparisons of binary64 numbers, and conversions from and to integers.
use vstd::arithmetic::div_mod::*;
use vstd::arithmetic::power2::*;
use vstd::prelude::*;

use super::arithmetic::{divide_by_power, lemma_abs_units_order, normalize};
use super::rounding::lemma_of_rounded_units;
use super::{excess_bits, Binary64, HIDDEN_BIT, INFINITE, SIGN_BIT};

verus! {

impl Binary64 {
    /// `self > other`.
    pub fn is_above(self, other: Binary64) -> (r: bool)
        ensures
            r == self.above(other),
    {
        if self.is_nan() || other.is_nan() {
            return false;
        }
        let a: u64 = self.unsigned();
        let b: u64 = other.unsigned();
        proof {
            if self.finite() && other.finite() {
                lemma_abs_units_order(self, other);
                lemma_abs_units_order(other, self);
            }
        }
        if self.bits >= SIGN_BIT {
            other.bits >= SIGN_BIT && a < b
        } else if other.bits >= SIGN_BIT {
            a > 0 || b > 0
        } else {
            a > b
        }
    }

    /// `self <= other`.
    pub fn is_at_most(self, other: Binary64) -> (r: bool)
        ensures
            r == self.at_most(other),
    {
        !self.is_nan() && !other.is_nan() && !self.is_above(other)
    }

    /// The number `n * 2^(x - 1074)`, with a sign.
    pub(crate) fn from_signed_scaled(negative: bool, n: u64, x: u32) -> (r: Binary64)
        requires
            n < 2 * HIDDEN_BIT,
            52 <= x <= 1500,
        ensures
            r == Binary64::of_units(negative, n as nat * pow2(x as nat)),
    {
        proof {
            lemma2_to64();
        }
        if n == 0 {
            proof {
                assert(0 * pow2(x as nat) == 0);
                assert(excess_bits(0, HIDDEN_BIT as nat) == 0);
            }
            return Binary64 { bits: if negative { SIGN_BIT } else { 0 } };
        }
        let (s, j) = normalize(n);
        let k: u32 = x - j;
        proof {
            lemma_pow2_adds(j as nat, k as nat);
            assert(n * pow2(x as nat) == s * pow2(k as nat)) by (nonlinear_arith)
                requires
                    s == n * pow2(j as nat),
                    pow2(x as nat) == pow2(j as nat) * pow2(k as nat),
            ;
            lemma_of_rounded_units(negative, s as nat, k as nat);
        }
        let magnitude: u64 = k as u64 * HIDDEN_BIT + s;
        Binary64 { bits: if negative { SIGN_BIT + magnitude } else { magnitude } }
    }

    /// The number `v * 2^(x - 1074)`.
    pub(crate) fn from_scaled(v: i64, x: u32) -> (r: Binary64)
        requires
            -(2 * HIDDEN_BIT) < v < 2 * HIDDEN_BIT,
            52 <= x <= 1500,
        ensures
            r == Binary64::of_scaled(v as int, x as nat),
    {
        if v < 0 {
            Binary64::from_signed_scaled(true, (-v) as u64, x)
        } else {
            Binary64::from_signed_scaled(false, v as u64, x)
        }
    }

    /// A 32-bit integer as a number.
    pub fn from_integer(v: i32) -> (r: Binary64)
        ensures
            r == Binary64::of_integer(v as int),
    {
        Binary64::from_scaled(v as i64, 1074)
    }

    /// The floor, brought between two bounds.
    pub fn to_floor_between(self, low: i32, high: i32) -> (r: i32)
        requires
            !self.nan(),
            low <= high,
        ensures
            r == self.floor_between(low as int, high as int),
    {
        let negative: bool = self.bits >= SIGN_BIT;
        if self.unsigned() == INFINITE {
            return if negative { low } else { high };
        }
        let (n, e) = self.parts();
        if e >= 1074 {
            proof {
                lemma_large(n as nat, e as nat);
                lemma_pow2_pos(1074);
                lemma_negative_quotient(self.abs_units() as int, pow2(1074) as int);
            }
            return if negative { low } else { high };
        }
        let t: u32 = (1074 - e) as u32;
        let (q, exact) = divide_by_power(n, t);
        proof {
            lemma_small(n as nat, e as nat);
            lemma_pow2_pos(1074);
            lemma_negative_quotient(self.abs_units() as int, pow2(1074) as int);
        }
        let floor: i64 = if negative {
            if exact { -(q as i64) } else { -(q as i64) - 1 }
        } else {
            q as i64
        };
        if floor < low as i64 {
            low
        } else if floor > high as i64 {
            high
        } else {
            floor as i32
        }
    }

    /// `self.floor() as i32`.
    pub fn to_floor_i32(self) -> (r: i32)
        ensures
            r == self.floor_i32(),
    {
        if self.is_nan() {
            0
        } else {
            self.to_floor_between(i32::MIN, i32::MAX)
        }
    }

    /// The ceiling, brought between 1 and a bound.
    pub fn to_ceil_within(self, high: u32) -> (r: u32)
        requires
            high >= 1,
        ensures
            r == self.ceil_within(high as int),
            1 <= r <= high,
    {
        if self.is_nan() || self.bits >= SIGN_BIT {
            return 1;
        }
        if self.unsigned() == INFINITE {
            return high;
        }
        let (n, e) = self.parts();
        proof {
            lemma_pow2_pos(1074);
            lemma_negative_quotient(self.abs_units() as int, pow2(1074) as int);
        }
        if e >= 1074 {
            proof {
                lemma_large(n as nat, e as nat);
            }
            return high;
        }
        let t: u32 = (1074 - e) as u32;
        let (q, exact) = divide_by_power(n, t);
        proof {
            lemma_small(n as nat, e as nat);
        }
        let ceil: u64 = if exact { q } else { q + 1 };
        if ceil < 1 {
            1
        } else if ceil > high as u64 {
            high
        } else {
            ceil as u32
        }
    }
}

/// The quotient of a negative number, rounded down.
proof fn lemma_negative_quotient(n: int, d: int)
    requires
        d > 0,
        n >= 0,
    ensures
        (-n) / d == -(n / d) - if n % d == 0 {
            0int
        } else {
            1
        },
        n / d >= 0,
{
    let q = n / d;
    let r = n % d;
    lemma_fundamental_div_mod(n, d);
    lemma_mod_bound(n, d);
    lemma_div_pos_is_pos(n, d);
    if r == 0 {
        assert(-n == (-q) * d + 0) by (nonlinear_arith)
            requires
                n == d * q + r,
                r == 0,
        ;
        lemma_fundamental_div_mod_converse(-n, d, -q, 0);
    } else {
        assert(-n == (-q - 1) * d + (d - r)) by (nonlinear_arith)
            requires
                n == d * q + r,
        ;
        lemma_fundamental_div_mod_converse(-n, d, -q - 1, d - r);
    }
}

/// What has an exponent of 1074 or more is an integer of `2^52` or more.
proof fn lemma_large(n: nat, e: nat)
    requires
        n >= HIDDEN_BIT,
        e >= 1074,
    ensures
        (n * pow2(e)) / pow2(1074) >= HIDDEN_BIT,
{
    let t = (e - 1074) as nat;
    lemma_pow2_pos(1074);
    lemma_pow2_pos(t);
    lemma_pow2_adds(t, 1074);
    assert(n * pow2(e) == (n * pow2(t)) * pow2(1074)) by (nonlinear_arith)
        requires
            pow2(e) == pow2(t) * pow2(1074),
    ;
    lemma_div_by_multiple((n * pow2(t)) as int, pow2(1074) as int);
    assert(n * pow2(t) >= n) by (nonlinear_arith)
        requires
            pow2(t) > 0,
    ;
}

/// What has a smaller exponent loses the difference in bits.
proof fn lemma_small(n: nat, e: nat)
    requires
        e < 1074,
    ensures
        (n * pow2(e)) / pow2(1074) == n / pow2((1074 - e) as nat),
        ((n * pow2(e)) % pow2(1074) == 0) == (n % pow2((1074 - e) as nat) == 0),
{
    let c = pow2(e) as int;
    let d = pow2((1074 - e) as nat) as int;
    let q = n as int / d;
    let r = n as int % d;
    lemma_pow2_pos(e);
    lemma_pow2_pos((1074 - e) as nat);
    lemma_pow2_adds(e, (1074 - e) as nat);
    lemma_fundamental_div_mod(n as int, d);
    lemma_mod_bound(n as int, d);
    assert(n * c == q * (c * d) + r * c) by (nonlinear_arith)
        requires
            n == d * q + r,
    ;
    assert(0 <= r * c < c * d && (r * c == 0 <==> r == 0)) by (nonlinear_arith)
        requires
            0 <= r < d,
            c > 0,
    ;
    lemma_fundamental_div_mod_converse(n * c, c * d, q, r * c);
}

} // verus!
