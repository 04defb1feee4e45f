//! Binary32 numbers, the shorter format in which a distance is stored.
use vstd::arithmetic::div_mod::*;
use vstd::arithmetic::power2::*;
use vstd::prelude::*;

use super::arithmetic::lemma_shifted_ratio;
use super::laws::{
    lemma_round_units_bounds, rounded_number_has_units, rounding_error_is_bounded,
    rounding_keeps_counts, rounding_keeps_short_counts,
};
use super::rounding::{lemma_magnitude, round_bracketed};
use super::{excess_bits, magnitude_of, nearest_even, round_units, Binary64, INFINITE, QUIET_NAN, SIGN_BIT};

verus! {

/// The sign bit of a binary32 pattern.
pub const SIGN_BIT_32: u32 = 0x8000_0000;

/// The hidden leading bit of a normal binary32 significand.
pub const HIDDEN_BIT_32: u32 = 0x0080_0000;

/// The magnitude of an infinite binary32 number.
pub const INFINITE_32: u32 = 0x7f80_0000;

/// The pattern that stands for every NaN.
pub const QUIET_NAN_32: u32 = 0x7fc0_0000;

/// A binary32 number, held as its bit pattern.
#[derive(Clone, Copy, Debug, PartialEq, Eq, Structural)]
pub struct Binary32 {
    pub bits: u32,
}

impl Binary32 {
    pub open spec fn negative(self) -> bool {
        self.bits >= SIGN_BIT_32
    }

    pub open spec fn magnitude(self) -> int {
        if self.bits >= SIGN_BIT_32 {
            self.bits - SIGN_BIT_32
        } else {
            self.bits as int
        }
    }

    /// See [`Binary32::abs_units`].
    pub open spec fn significand(self) -> nat {
        if self.magnitude() < HIDDEN_BIT_32 {
            self.magnitude() as nat
        } else {
            (HIDDEN_BIT_32 + self.magnitude() % (HIDDEN_BIT_32 as int)) as nat
        }
    }

    /// See [`Binary32::abs_units`].
    pub open spec fn exponent(self) -> nat {
        if self.magnitude() < HIDDEN_BIT_32 {
            0
        } else {
            (self.magnitude() / (HIDDEN_BIT_32 as int) - 1) as nat
        }
    }

    /// The absolute value of a finite number, in units of `2^-149`.
    pub open spec fn abs_units(self) -> nat {
        self.significand() * pow2(self.exponent())
    }

    pub open spec fn of_magnitude(negative: bool, magnitude: u32) -> Binary32 {
        Binary32 {
            bits: if negative {
                (SIGN_BIT_32 + magnitude) as u32
            } else {
                magnitude
            },
        }
    }

    /// The number in the longer format, which holds it exactly.
    pub open spec fn widened(self) -> Binary64 {
        if self.magnitude() > INFINITE_32 {
            Binary64::quiet_nan()
        } else if self.magnitude() == INFINITE_32 {
            Binary64::of_magnitude(self.negative(), INFINITE)
        } else {
            // A unit of `2^-149` is `2^925` units of `2^-1074`.
            Binary64::of_units(self.negative(), self.abs_units() * pow2(925))
        }
    }

    /// A binary64 number, rounded to the nearest binary32 number; halfway, to
    /// the even one.
    pub open spec fn narrowed(n: Binary64) -> Binary32 {
        if n.nan() {
            Binary32 { bits: QUIET_NAN_32 }
        } else if n.infinite() {
            Binary32::of_magnitude(n.negative(), INFINITE_32)
        } else {
            let units = round_units(n.abs_units(), pow2(925), HIDDEN_BIT_32 as nat);
            let magnitude = magnitude_of(units, HIDDEN_BIT_32 as nat);
            Binary32::of_magnitude(
                n.negative(),
                if magnitude < INFINITE_32 {
                    magnitude as u32
                } else {
                    INFINITE_32
                },
            )
        }
    }

    /// The number in the longer format.
    pub fn widen(self) -> (r: Binary64)
        ensures
            r == self.widened(),
    {
        let negative: bool = self.bits >= SIGN_BIT_32;
        let m: u32 = if negative { self.bits - SIGN_BIT_32 } else { self.bits };
        if m > INFINITE_32 {
            return Binary64 { bits: QUIET_NAN };
        }
        if m == INFINITE_32 {
            return Binary64 { bits: if negative { SIGN_BIT + INFINITE } else { INFINITE } };
        }
        let n: u32 = if m < HIDDEN_BIT_32 { m } else { HIDDEN_BIT_32 + m % HIDDEN_BIT_32 };
        let e: u32 = if m < HIDDEN_BIT_32 { 0 } else { m / HIDDEN_BIT_32 - 1 };
        proof {
            lemma_pow2_adds(e as nat, 925);
            assert(self.abs_units() * pow2(925) == n * pow2((e + 925) as nat)) by (nonlinear_arith)
                requires
                    self.abs_units() == n * pow2(e as nat),
                    pow2((e + 925) as nat) == pow2(e as nat) * pow2(925),
            ;
        }
        Binary64::from_signed_scaled(negative, n as u64, e + 925)
    }

    /// A binary64 number, rounded to the nearest binary32 number.
    pub fn narrow(n: Binary64) -> (r: Binary32)
        ensures
            r == Binary32::narrowed(n),
    {
        let negative: bool = n.bits >= SIGN_BIT;
        let a: u64 = n.unsigned();
        if a > INFINITE {
            return Binary32 { bits: QUIET_NAN_32 };
        }
        let magnitude: u32;
        if a == INFINITE {
            magnitude = INFINITE_32;
        } else {
            let (s, e) = n.parts();
            proof {
                lemma_shifted_ratio(s as nat, e as nat, 925);
                lemma_pow2_pos(925);
            }
            let (q, k) = round_bracketed(
                s as u128,
                e - 925,
                false,
                HIDDEN_BIT_32 as u64,
                Ghost(n.abs_units()),
                Ghost(pow2(925)),
            );
            proof {
                lemma_magnitude(q as nat, k as nat, HIDDEN_BIT_32 as nat);
            }
            if k >= 255 {
                magnitude = INFINITE_32;
            } else {
                let m: u64 = k as u64 * HIDDEN_BIT_32 as u64 + q;
                magnitude = if m < INFINITE_32 as u64 { m as u32 } else { INFINITE_32 };
            }
        }
        Binary32 { bits: if negative { SIGN_BIT_32 + magnitude } else { magnitude } }
    }
}

/// Every binary32 number comes back from the longer format as it was.
pub proof fn widening_is_undone(n: Binary32)
    requires
        n.magnitude() <= INFINITE_32,
    ensures
        Binary32::narrowed(n.widened()) == n,
{
    if n.magnitude() < INFINITE_32 {
        let h = HIDDEN_BIT_32 as int;
        let m = n.magnitude();
        let (q, e) = (n.significand(), n.exponent());
        let p = pow2(925);
        lemma_fundamental_div_mod(m, h);
        lemma_mod_bound(m, h);
        assert(e * h + q == m) by {
            if m < h {
                assert(0 * h == 0);
            } else {
                assert(e * h + (h + m % h) == m) by (nonlinear_arith)
                    requires
                        m == h * (m / h) + m % h,
                        e == m / h - 1,
                ;
            }
        }
        lemma2_to64();
        lemma_pow2_pos(925);
        lemma_pow2_pos((e + 925) as nat);
        lemma_pow2_adds(e, 925);
        lemma_pow2_adds(24, (e + 925) as nat);
        lemma_pow2_strictly_increases((e + 949) as nat, 2098);
        let u = q * pow2((e + 925) as nat);
        assert(n.abs_units() * p == u) by (nonlinear_arith)
            requires
                n.abs_units() == q * pow2(e),
                u == q * pow2((e + 925) as nat),
                pow2((e + 925) as nat) == pow2(e) * p,
        ;
        assert(u < pow2((e + 949) as nat)) by (nonlinear_arith)
            requires
                u == q * pow2((e + 925) as nat),
                q < pow2(24),
                pow2((e + 949) as nat) == pow2(24) * pow2((e + 925) as nat),
                pow2((e + 925) as nat) > 0,
        ;
        rounding_keeps_short_counts(q, (e + 925) as nat, 1);
        assert(u * 1 == u);
        rounded_number_has_units(n.negative(), u, 1);
        rounding_keeps_counts(q, e, p, HIDDEN_BIT_32 as nat);
        lemma_magnitude(q, e, HIDDEN_BIT_32 as nat);
    }
}

/// A number that came from the shorter format is not changed by going through
/// it again.
pub proof fn short_numbers_survive(n: Binary32)
    ensures
        Binary32::narrowed(n.widened()).widened() == n.widened(),
{
    if n.magnitude() <= INFINITE_32 {
        widening_is_undone(n);
    }
}

/// Zero is such a number.
pub proof fn zero_is_short()
    ensures
        (Binary32 { bits: 0 }).widened() == Binary64::of_integer(0),
{
    let zero = Binary32 { bits: 0 };
    assert(zero.abs_units() == 0) by (nonlinear_arith)
        requires
            zero.abs_units() == 0 * pow2(0),
    ;
    assert(0 * pow2(925) == 0 && 0 * pow2(1074) == 0);
}

/// A binary32 number of so many units.
proof fn lemma_units_of_magnitude(negative: bool, q: nat, k: nat)
    requires
        q <= 2 * HIDDEN_BIT_32,
        k == 0 || q >= HIDDEN_BIT_32,
        k * HIDDEN_BIT_32 + q < INFINITE_32,
    ensures
        ({
            let n = Binary32::of_magnitude(negative, (k * HIDDEN_BIT_32 + q) as u32);
            &&& n.negative() == negative
            &&& n.magnitude() == k * HIDDEN_BIT_32 + q
            &&& n.abs_units() == q * pow2(k)
        }),
{
    let h = HIDDEN_BIT_32 as int;
    let m = k * h + q;
    let n = Binary32::of_magnitude(negative, m as u32);
    lemma2_to64();
    assert(m >= 0) by (nonlinear_arith)
        requires
            m == k * h + q,
            k >= 0,
            q >= 0,
            h > 0,
    ;
    assert(n.magnitude() == m);
    if q == 2 * h {
        assert(m == (k + 2) * h) by (nonlinear_arith)
            requires
                m == k * h + q,
                q == 2 * h,
        ;
        lemma_fundamental_div_mod_converse(m, h, (k + 2) as int, 0);
        lemma_pow2_unfold((k + 1) as nat);
        assert(h * (2 * pow2(k)) == q * pow2(k)) by (nonlinear_arith)
            requires
                q == 2 * h,
        ;
        assert(m >= h) by (nonlinear_arith)
            requires
                m == (k + 2) * h,
                k >= 0,
                h > 0,
        ;
    } else if q >= h {
        assert(m == (k + 1) * h + (q - h)) by (nonlinear_arith)
            requires
                m == k * h + q,
        ;
        lemma_fundamental_div_mod_converse(m, h, (k + 1) as int, q - h);
        assert(m >= h) by (nonlinear_arith)
            requires
                m == k * h + q,
                q >= h,
                k >= 0,
                h > 0,
        ;
    }
}

/// A number loses at most one part in `2^24`, and a unit, in the shorter format, and keeps
/// its sign; what is no number stays none, and an infinity stays one.
pub proof fn narrowing_is_close(n: Binary64)
    ensures
        ({
            let r = Binary32::narrowed(n);
            let v = pow2(925);
            let p = 2 * HIDDEN_BIT_32 as int;
            &&& n.nan() <==> r.magnitude() > INFINITE_32
            &&& !n.nan() ==> r.negative() == n.negative()
            &&& n.infinite() ==> r.magnitude() == INFINITE_32
            &&& n.finite() && r.magnitude() < INFINITE_32 ==> {
                let m = n.abs_units();
                -(m + p * v) <= p * (r.abs_units() * v - m) <= m + p * v
            }
        }),
{
    if n.finite() {
        let v = pow2(925);
        let h = HIDDEN_BIT_32 as nat;
        let m = n.abs_units();
        let p = 2 * h as int;
        lemma_pow2_pos(925);
        let e = excess_bits(m / v, h);
        let q = nearest_even(m, v * pow2(e));
        lemma_round_units_bounds(m, v, h);
        lemma_magnitude(q, e, h);
        let u = round_units(m, v, h);
        rounding_error_is_bounded(m, v, h);
        assert(p * (m - u * v) == -(p * (u * v - m))) by (nonlinear_arith);
        if e * h + q < INFINITE_32 {
            lemma_units_of_magnitude(n.negative(), q, e);
        }
    }
}

/// A number of the shorter format has the same value in the longer one: a unit of the one
/// is `2^925` units of the other.
pub proof fn widening_keeps_the_value(n: Binary32)
    ensures
        n.magnitude() > INFINITE_32 ==> n.widened().nan(),
        n.magnitude() == INFINITE_32 ==> n.widened().infinite() && n.widened().negative()
            == n.negative(),
        n.magnitude() < INFINITE_32 ==> {
            &&& n.widened().finite()
            &&& n.widened().negative() == n.negative()
            &&& n.widened().abs_units() == n.abs_units() * pow2(925)
        },
{
    if n.magnitude() < INFINITE_32 {
        let (q, e) = (n.significand(), n.exponent());
        lemma2_to64();
        lemma_pow2_pos((e + 925) as nat);
        lemma_pow2_adds(e, 925);
        lemma_pow2_adds(24, (e + 925) as nat);
        lemma_pow2_strictly_increases((e + 949) as nat, 2098);
        let u = q * pow2((e + 925) as nat);
        assert(n.abs_units() * pow2(925) == u) by (nonlinear_arith)
            requires
                n.abs_units() == q * pow2(e),
                u == q * pow2((e + 925) as nat),
                pow2((e + 925) as nat) == pow2(e) * pow2(925),
        ;
        assert(u < pow2((e + 949) as nat)) by (nonlinear_arith)
            requires
                u == q * pow2((e + 925) as nat),
                q < pow2(24),
                pow2((e + 949) as nat) == pow2(24) * pow2((e + 925) as nat),
                pow2((e + 925) as nat) > 0,
        ;
        rounding_keeps_short_counts(q, (e + 925) as nat, 1);
        assert(u * 1 == u);
        rounded_number_has_units(n.negative(), u, 1);
    }
}

} // verus!
