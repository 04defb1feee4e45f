//! The operations on binary64 numbers.
use vstd::arithmetic::div_mod::*;
use vstd::arithmetic::mul::*;
use vstd::arithmetic::power2::*;
use vstd::bits::*;
use vstd::prelude::*;

use super::rounding::{brackets, encode, is_exactly, lemma_pow2_monotone};
use super::{Binary64, HIDDEN_BIT, INFINITE, QUIET_NAN, SIGN_BIT};

verus! {

impl Binary64 {
    /// The pattern without its sign bit.
    pub(crate) fn unsigned(self) -> (m: u64)
        ensures
            m == self.magnitude(),
    {
        if self.bits >= SIGN_BIT {
            self.bits - SIGN_BIT
        } else {
            self.bits
        }
    }

    /// The significand and the exponent.
    pub(crate) fn parts(self) -> (p: (u64, i32))
        ensures
            p.0 == self.significand(),
            p.1 == self.exponent(),
            p.0 < 2 * HIDDEN_BIT,
            0 <= p.1 <= 2046,
            p.1 > 0 ==> p.0 >= HIDDEN_BIT,
            (p.0 == 0) == self.zero(),
    {
        let m: u64 = self.unsigned();
        if m < HIDDEN_BIT {
            (m, 0)
        } else {
            (HIDDEN_BIT + m % HIDDEN_BIT, (m / HIDDEN_BIT) as i32 - 1)
        }
    }

    /// Whether the number is a NaN.
    pub fn is_nan(self) -> (r: bool)
        ensures
            r == self.nan(),
    {
        self.unsigned() > INFINITE
    }

    fn signed(negative: bool, magnitude: u64) -> (r: Binary64)
        requires
            magnitude < SIGN_BIT,
        ensures
            r == Binary64::of_magnitude(negative, magnitude),
    {
        Binary64 { bits: if negative { SIGN_BIT + magnitude } else { magnitude } }
    }

    /// `-self`.
    pub fn negate(self) -> (r: Binary64)
        ensures
            r == self.negated(),
    {
        Binary64::signed(self.bits < SIGN_BIT, self.unsigned())
    }

    /// `self * other`.
    pub fn multiply(self, other: Binary64) -> (r: Binary64)
        ensures
            r == self.times(other),
    {
        let negative: bool = (self.bits >= SIGN_BIT) != (other.bits >= SIGN_BIT);
        let a: u64 = self.unsigned();
        let b: u64 = other.unsigned();
        if a > INFINITE || b > INFINITE {
            return Binary64 { bits: QUIET_NAN };
        }
        if a == INFINITE || b == INFINITE {
            return if a == 0 || b == 0 {
                Binary64 { bits: QUIET_NAN }
            } else {
                Binary64::signed(negative, INFINITE)
            };
        }
        let (n, e) = self.parts();
        let (m, f) = other.parts();
        let ghost num = self.abs_units() * other.abs_units();
        let ghost den = pow2(1074);
        proof {
            lemma_pow2_pos(1074);
            lemma2_to64();
        }
        if n == 0 || m == 0 {
            assert(num == 0) by (nonlinear_arith)
                requires
                    num == (n * pow2(e as nat)) * (m * pow2(f as nat)),
                    n == 0 || m == 0,
            ;
            proof {
                lemma_zero_bracketed(den);
            }
            return encode(negative, 0, 0, false, Ghost(num), Ghost(den));
        }
        assert(HIDDEN_BIT <= n * m <= 0x400_0000_0000_0000_0000_0000_0000 || (n < HIDDEN_BIT && m
            < HIDDEN_BIT)) by (nonlinear_arith)
            requires
                0 < n < 0x20_0000_0000_0000,
                0 < m < 0x20_0000_0000_0000,
        ;
        assert(n * m < 0x400_0000_0000_0000_0000_0000_0000) by (nonlinear_arith)
            requires
                0 < n < 0x20_0000_0000_0000,
                0 < m < 0x20_0000_0000_0000,
        ;
        let product: u128 = n as u128 * m as u128;
        let x: i32 = e + f - 1074;
        proof {
            lemma_product(n as nat, e as nat, m as nat, f as nat);
        }
        encode(negative, product, x, false, Ghost(num), Ghost(den))
    }

    /// `self / other`.
    pub fn divide(self, other: Binary64) -> (r: Binary64)
        ensures
            r == self.over(other),
    {
        let negative: bool = (self.bits >= SIGN_BIT) != (other.bits >= SIGN_BIT);
        let a: u64 = self.unsigned();
        let b: u64 = other.unsigned();
        if a > INFINITE || b > INFINITE || (a == INFINITE && b == INFINITE) || (a == 0 && b == 0) {
            return Binary64 { bits: QUIET_NAN };
        }
        if a == INFINITE || b == 0 {
            return Binary64::signed(negative, INFINITE);
        }
        proof {
            lemma2_to64();
            lemma_pow2_pos(1074);
        }
        if b == INFINITE {
            assert(super::excess_bits(0, HIDDEN_BIT as nat) == 0);
            return Binary64::signed(negative, 0);
        }
        let (n, e) = self.parts();
        let (m, f) = other.parts();
        let ghost num = self.abs_units() * pow2(1074);
        let ghost den = other.abs_units();
        proof {
            lemma_pow2_pos(f as nat);
            assert(den > 0) by (nonlinear_arith)
                requires
                    den == m * pow2(f as nat),
                    m > 0,
                    pow2(f as nat) > 0,
            ;
        }
        if n == 0 {
            assert(num == 0) by (nonlinear_arith)
                requires
                    num == (n * pow2(e as nat)) * pow2(1074),
                    n == 0,
            ;
            proof {
                lemma_zero_bracketed(den);
            }
            return encode(negative, 0, 0, false, Ghost(num), Ghost(den));
        }
        let (s, j) = normalize(n);
        assert(s * 0x400_0000_0000_0000_0000 < 0x8000_0000_0000_0000_0000_0000_0000_0000);
        let high: u128 = s as u128 * 0x400_0000_0000_0000_0000;
        let q: u128 = high / m as u128;
        let rest: u128 = high % m as u128;
        let x: i32 = e - j as i32 - f + 1000;
        proof {
            lemma_fundamental_div_mod(high as int, m as int);
            lemma_mod_bound(high as int, m as int);
            assert(q <= high && q >= 0x20_0000_0000_0000) by (nonlinear_arith)
                requires
                    high == m * q + rest,
                    0 <= rest < m,
                    0 < m < 0x20_0000_0000_0000,
                    high >= 0x400_0000_0000_0000_0000 * 0x10_0000_0000_0000,
            ;
            assert(q * m <= high < (q + 1) * m && ((q * m == high) == (rest == 0)))
                by (nonlinear_arith)
                requires
                    high == m * q + rest,
                    0 <= rest < m,
            ;
            lemma_pow2_adds(64, 10);
            assert(pow2(74) == 0x400_0000_0000_0000_0000) by (nonlinear_arith)
                requires
                    pow2(74) == pow2(64) * pow2(10),
                    pow2(64) == 0x10000000000000000,
                    pow2(10) == 0x400,
            ;
            lemma_quotient(n as nat, e as nat, m as nat, f as nat, j as nat, q as nat, high as nat);
        }
        encode(negative, q, x, rest != 0, Ghost(num), Ghost(den))
    }
}

impl Binary64 {
    /// `self + other`.
    pub fn add_to(self, other: Binary64) -> (r: Binary64)
        ensures
            r == self.plus(other),
    {
        let a: u64 = self.unsigned();
        let b: u64 = other.unsigned();
        let down: bool = self.bits >= SIGN_BIT;
        let other_down: bool = other.bits >= SIGN_BIT;
        if a > INFINITE || b > INFINITE {
            return Binary64 { bits: QUIET_NAN };
        }
        if a == INFINITE {
            return if b == INFINITE && down != other_down { Binary64 { bits: QUIET_NAN } } else { self };
        }
        if b == INFINITE {
            return other;
        }
        proof {
            lemma2_to64();
            assert(super::excess_bits(0, HIDDEN_BIT as nat) == 0);
            lemma_abs_units_order(self, other);
            lemma_abs_units_order(other, self);
        }
        if a == b && down != other_down {
            return Binary64::signed(false, 0);
        }
        if a == 0 && b == 0 {
            return Binary64::signed(down, 0);
        }
        if a >= b {
            sum_of_parts(down, self, other, down != other_down)
        } else {
            sum_of_parts(other_down, other, self, down != other_down)
        }
    }

    /// `self - other`.
    pub fn subtract(self, other: Binary64) -> (r: Binary64)
        ensures
            r == self.minus(other),
    {
        self.add_to(other.negate())
    }
}

/// The magnitudes of finite numbers are ordered as their absolute values are.
pub proof fn lemma_abs_units_order(a: Binary64, b: Binary64)
    requires
        a.finite(),
        b.finite(),
    ensures
        a.magnitude() < b.magnitude() ==> a.abs_units() < b.abs_units(),
        a.magnitude() == b.magnitude() ==> a.abs_units() == b.abs_units(),
        a.abs_units() == 0 <==> a.zero(),
{
    let h = HIDDEN_BIT as int;
    let (e, f) = (a.exponent(), b.exponent());
    lemma2_to64();
    lemma_pow2_pos(e);
    lemma_pow2_pos(f);
    assert(a.abs_units() == 0 <==> a.significand() == 0) by (nonlinear_arith)
        requires
            a.abs_units() == a.significand() * pow2(e),
            pow2(e) > 0,
    ;
    if a.magnitude() < b.magnitude() {
        if e == f {
            assert(a.significand() < b.significand());
            assert(a.abs_units() < b.abs_units()) by (nonlinear_arith)
                requires
                    a.significand() < b.significand(),
                    a.abs_units() == a.significand() * pow2(e),
                    b.abs_units() == b.significand() * pow2(e),
                    pow2(e) > 0,
            ;
        } else {
            assert(e < f);
            lemma_pow2_unfold((e + 1) as nat);
            lemma_pow2_monotone((e + 1) as nat, f);
            assert(a.significand() < 2 * h && b.significand() >= h);
            assert(a.abs_units() < b.abs_units()) by (nonlinear_arith)
                requires
                    a.significand() < 2 * h,
                    b.significand() >= h,
                    a.abs_units() == a.significand() * pow2(e),
                    b.abs_units() == b.significand() * pow2(f),
                    pow2(f) >= 2 * pow2(e),
                    pow2(e) > 0,
                    h > 0,
            ;
        }
    }
}

/// The sum of two absolute values, or their difference.
fn sum_of_parts(negative: bool, a: Binary64, b: Binary64, less: bool) -> (r: Binary64)
    requires
        a.finite(),
        b.finite(),
        a.magnitude() >= b.magnitude(),
        !a.zero(),
        less ==> a.magnitude() > b.magnitude(),
    ensures
        r == Binary64::of_units(
            negative,
            super::round_units(
                if less {
                    (a.abs_units() - b.abs_units()) as nat
                } else {
                    a.abs_units() + b.abs_units()
                },
                1,
                HIDDEN_BIT as nat,
            ),
        ),
{
    let (n, e) = a.parts();
    let (m, f) = b.parts();
    let ghost num = if less {
        (a.abs_units() - b.abs_units()) as nat
    } else {
        a.abs_units() + b.abs_units()
    };
    let g: i32 = e - f;
    proof {
        lemma_abs_units_order(b, a);
        lemma2_to64();
    }
    if g <= 60 {
        let up: u128 = 1u128 << (g as u128);
        proof {
            super::rounding::lemma_u128_power(g as u128);
            lemma2_to64_rest();
            lemma_pow2_monotone(g as nat, 60);
            lemma_pow2_adds(g as nat, f as nat);
            lemma_pow2_pos(f as nat);
            lemma_pow2_pos(g as nat);
            assert(n * up <= 0x20_0000_0000_0000 * 0x1000_0000_0000_0000) by (nonlinear_arith)
                requires
                    n < 0x20_0000_0000_0000,
                    0 < up <= 0x1000_0000_0000_0000,
            ;
        }
        let high: u128 = n as u128 * up;
        proof {
            let p = pow2(f as nat);
            assert(a.abs_units() == high * p) by (nonlinear_arith)
                requires
                    a.abs_units() == n * pow2(e as nat),
                    pow2(e as nat) == pow2(g as nat) * p,
                    high == n * pow2(g as nat),
            ;
            assert(less ==> high > m) by {
                if less {
                    assert(high > m) by (nonlinear_arith)
                        requires
                            high * p > m * p,
                            p > 0,
                    ;
                }
            }
            assert(num == (if less {
                high - m
            } else {
                high + m
            }) * p) by (nonlinear_arith)
                requires
                    num == if less {
                        high * p - m * p
                    } else {
                        high * p + m * p
                    },
            ;
        }
        let total: u128 = if less { high - m as u128 } else { high + m as u128 };
        if total < HIDDEN_BIT as u128 {
            assert(total > 0) by {
                if !less {
                    assert(high > 0) by (nonlinear_arith)
                        requires
                            high == n * up,
                            n > 0,
                            up > 0,
                    ;
                }
            }
            let (s, j) = normalize(total as u64);
            proof {
                lemma_shifted_integer(num, total as nat, f as nat, j as nat);
            }
            encode(negative, s as u128, f - j as i32, false, Ghost(num), Ghost(1))
        } else {
            proof {
                lemma_shifted_integer(num, total as nat, f as nat, 0);
            }
            encode(negative, total, f, false, Ghost(num), Ghost(1))
        }
    } else {
        let t: u32 = (g - 60) as u32;
        let high: u128 = n as u128 * 0x1000_0000_0000_0000;
        let (low, exact) = divide_by_power(m, t);
        let total: u128 = if less {
            high - low as u128 - (if exact { 0u128 } else { 1u128 })
        } else {
            high + low as u128
        };
        proof {
            lemma_aligned_sum(n as nat, e as nat, m as nat, f as nat, t as nat, less);
        }
        encode(negative, total, e - 60, !exact, Ghost(num), Ghost(1))
    }
}

/// The quotient of `n` by `2^k`, and whether it is exact.
pub(crate) fn divide_by_power(n: u64, k: u32) -> (r: (u64, bool))
    requires
        n < 2 * HIDDEN_BIT,
        k >= 1,
    ensures
        r.0 == n as nat / pow2(k as nat),
        r.1 == (n as nat % pow2(k as nat) == 0),
        r.0 <= n,
        r.0 < HIDDEN_BIT,
{
    proof {
        lemma_pow2_pos(k as nat);
        lemma_fundamental_div_mod(n as int, pow2(k as nat) as int);
    }
    if k < 64 {
        let q: u64 = n >> (k as u64);
        let back: u64 = q << (k as u64);
        proof {
            lemma_u64_shr_is_div(n, k as u64);
            assert((n >> (k as u64)) < 0x10_0000_0000_0000 && (n >> (k as u64)) <= n) by (bit_vector)
                requires
                    n < 0x20_0000_0000_0000,
                    1 <= k < 64,
            ;
            lemma_mul_is_commutative(q as int, pow2(k as nat) as int);
            lemma_mod_bound(n as int, pow2(k as nat) as int);
            lemma_u64_shl_is_mul(q, k as u64);
        }
        (q, back == n)
    } else {
        proof {
            lemma2_to64();
            lemma_pow2_monotone(64, k as nat);
            lemma_basic_div(n as int, pow2(k as nat) as int);
            lemma_small_mod(n as nat, pow2(k as nat));
        }
        (0, n == 0)
    }
}

/// An integer times a power of two, as [`encode`] takes it.
proof fn lemma_shifted_integer(num: nat, n: nat, f: nat, j: nat)
    requires
        num == n * pow2(f),
    ensures
        brackets(num, 1, n * pow2(j), f - j),
        is_exactly(num, 1, n * pow2(j), f - j),
{
    let s = n * pow2(j);
    let x = f - j;
    if x >= 0 {
        let c = pow2(x as nat);
        lemma_pow2_adds(j, x as nat);
        lemma_pow2_pos(x as nat);
        assert(num == s * c) by (nonlinear_arith)
            requires
                num == n * pow2(f),
                s == n * pow2(j),
                pow2(f) == pow2(j) * c,
        ;
        lemma_one_more(s, c);
        assert(c * 1 == c);
    } else {
        lemma_pow2_adds(f, (-x) as nat);
        assert(num * pow2((-x) as nat) == s) by (nonlinear_arith)
            requires
                num == n * pow2(f),
                s == n * pow2(j),
                pow2(j) == pow2(f) * pow2((-x) as nat),
        ;
    }
}

/// A number as a count of units of `2^d` each, as [`round_bracketed`] takes it.
///
/// [`round_bracketed`]: super::rounding::round_bracketed
pub proof fn lemma_shifted_ratio(n: nat, e: nat, d: nat)
    ensures
        brackets(n * pow2(e), pow2(d), n, e - d),
        is_exactly(n * pow2(e), pow2(d), n, e - d),
{
    let x = e - d;
    lemma_pow2_pos(d);
    if x >= 0 {
        lemma_pow2_adds(x as nat, d);
        lemma_pow2_pos(e);
        lemma_one_more(n, pow2(e));
    } else {
        lemma_pow2_adds(e, (-x) as nat);
        assert((n * pow2(e)) * pow2((-x) as nat) == n * pow2(d)) by (nonlinear_arith)
            requires
                pow2(d) == pow2(e) * pow2((-x) as nat),
        ;
        lemma_one_more(n, pow2(d));
    }
}

/// A sum or a difference of two numbers of which the second lies far below the
/// first, as [`encode`] takes it.
proof fn lemma_aligned_sum(n: nat, e: nat, m: nat, f: nat, t: nat, less: bool)
    requires
        e == f + t + 60,
        m < 2 * HIDDEN_BIT,
        n >= HIDDEN_BIT,
    ensures
        ({
            let high = n * 0x1000_0000_0000_0000;
            let low = m / pow2(t);
            let exact = m % pow2(t) == 0;
            let num = if less {
                (n * pow2(e) - m * pow2(f)) as nat
            } else {
                n * pow2(e) + m * pow2(f)
            };
            let total = if less {
                (high - low - if exact {
                    0int
                } else {
                    1
                }) as nat
            } else {
                high + low
            };
            brackets(num, 1, total, e - 60) && is_exactly(num, 1, total, e - 60) == exact
        }),
{
    let x = (e - 60) as nat;
    let c = pow2(x) as int;
    let p = pow2(f) as int;
    let d = pow2(t) as int;
    let high = (n * 0x1000_0000_0000_0000) as int;
    let low = m as int / d;
    let rest = m as int % d;
    lemma2_to64();
    lemma2_to64_rest();
    lemma_pow2_pos(x);
    lemma_pow2_pos(f);
    lemma_pow2_pos(t);
    lemma_pow2_adds(60, x);
    lemma_pow2_adds(f, t);
    lemma_fundamental_div_mod(m as int, d);
    lemma_mod_bound(m as int, d);
    assert(0 <= low <= m) by {
        lemma_div_pos_is_pos(m as int, d);
        lemma_div_nonincreasing(m as int, d);
    }
    assert(n * pow2(e) == high * c) by (nonlinear_arith)
        requires
            high == n * 0x1000_0000_0000_0000,
            pow2(e) == 0x1000_0000_0000_0000 * c,
    ;
    assert(m * p == low * c + rest * p) by (nonlinear_arith)
        requires
            m == d * low + rest,
            c == p * d,
    ;
    assert(0 <= rest * p < c && (rest * p == 0 <==> rest == 0)) by (nonlinear_arith)
        requires
            0 <= rest < d,
            c == p * d,
            p > 0,
    ;
    assert(c * 1 == c);
    if less {
        let k: int = if rest == 0 {
            0
        } else {
            1
        };
        let total = (high - low - k) as nat;
        assert(total * c == high * c - low * c - k * c) by (nonlinear_arith)
            requires
                total == high - low - k,
        ;
        assert(k * c == if rest == 0 {
            0
        } else {
            c
        }) by (nonlinear_arith)
            requires
                k == if rest == 0 {
                    0int
                } else {
                    1
                },
        ;
        lemma_one_more(total, c as nat);
    } else {
        let total = (high + low) as nat;
        assert(total * c == high * c + low * c) by (nonlinear_arith)
            requires
                total == high + low,
        ;
        lemma_one_more(total, c as nat);
    }
}

/// A zero, as [`encode`] takes it.
proof fn lemma_zero_bracketed(den: nat)
    requires
        den > 0,
    ensures
        brackets(0, den, 0, 0),
        is_exactly(0, den, 0, 0),
{
    lemma2_to64();
    let c = pow2(0) * den;
    assert(c > 0) by (nonlinear_arith)
        requires
            c == pow2(0) * den,
            pow2(0) == 1,
            den > 0,
    ;
    lemma_one_more(0, c);
    assert(0 * c == 0);
}

/// The exact product of two numbers, as [`encode`] takes it.
proof fn lemma_product(n: nat, e: nat, m: nat, f: nat)
    ensures
        brackets((n * pow2(e)) * (m * pow2(f)), pow2(1074), n * m, e + f - 1074),
        is_exactly((n * pow2(e)) * (m * pow2(f)), pow2(1074), n * m, e + f - 1074),
{
    let num = (n * pow2(e)) * (m * pow2(f));
    let p = pow2(1074);
    let x = e + f - 1074;
    lemma_pow2_pos(1074);
    lemma_pow2_adds(e, f);
    assert(num == (n * m) * pow2(e + f)) by (nonlinear_arith)
        requires
            num == (n * pow2(e)) * (m * pow2(f)),
            pow2(e + f) == pow2(e) * pow2(f),
    ;
    if x >= 0 {
        lemma_pow2_adds(x as nat, 1074);
        let c = pow2(x as nat) * p;
        lemma_pow2_pos(x as nat);
        lemma_one_more(n * m, c);
        assert(c > 0) by (nonlinear_arith)
            requires
                c == pow2(x as nat) * p,
                p > 0,
                pow2(x as nat) > 0,
        ;
    } else {
        lemma_pow2_adds(e + f, (-x) as nat);
        assert(num * pow2((-x) as nat) == (n * m) * p) by (nonlinear_arith)
            requires
                num == (n * m) * pow2(e + f),
                pow2(e + f) * pow2((-x) as nat) == p,
        ;
        lemma_one_more(n * m, p);
    }
}

proof fn lemma_one_more(n: nat, c: nat)
    ensures
        (n + 1) * c == n * c + c,
{
    lemma_mul_is_distributive_add_other_way(c as int, n as int, 1);
}

/// The bracketed quotient of two numbers, as [`encode`] takes it.
proof fn lemma_quotient(n: nat, e: nat, m: nat, f: nat, j: nat, q: nat, high: nat)
    requires
        high == (n * pow2(j)) * pow2(74),
        q * m <= high < (q + 1) * m,
    ensures
        brackets((n * pow2(e)) * pow2(1074), m * pow2(f), q, e - j - f + 1000),
        is_exactly((n * pow2(e)) * pow2(1074), m * pow2(f), q, e - j - f + 1000) == (q * m == high),
{
    let num = (n * pow2(e)) * pow2(1074);
    let den = m * pow2(f);
    let x = e - j - f + 1000;
    let c: nat;
    if x >= 0 {
        c = pow2(x as nat) * pow2(f);
        lemma_pow2_pos(x as nat);
        lemma_pow2_pos(f);
        lemma_pow2_adds(x as nat, f);
        lemma_pow2_adds(j, 74);
        lemma_pow2_adds(j + 74, (x + f) as nat);
        lemma_pow2_adds(e, 1074);
        assert(c > 0) by (nonlinear_arith)
            requires
                c == pow2(x as nat) * pow2(f),
                pow2(x as nat) > 0,
                pow2(f) > 0,
        ;
        assert(num == high * c) by (nonlinear_arith)
            requires
                num == (n * pow2(e)) * pow2(1074),
                high == (n * pow2(j)) * pow2(74),
                c == pow2((x + f) as nat),
                pow2(j + 74) == pow2(j) * pow2(74),
                pow2(e + 1074) == pow2(j + 74) * pow2((x + f) as nat),
                pow2(e + 1074) == pow2(e) * pow2(1074),
        ;
        assert(pow2(x as nat) * den == m * c) by (nonlinear_arith)
            requires
                den == m * pow2(f),
                c == pow2(x as nat) * pow2(f),
        ;
    } else {
        c = pow2(f);
        lemma_pow2_pos(f);
        lemma_pow2_adds(e, 1074);
        lemma_pow2_adds(e + 1074, (-x) as nat);
        lemma_pow2_adds(j, 74);
        lemma_pow2_adds(j + 74, f);
        assert(num * pow2((-x) as nat) == high * c) by (nonlinear_arith)
            requires
                num == (n * pow2(e)) * pow2(1074),
                high == (n * pow2(j)) * pow2(74),
                c == pow2(f),
                pow2(e + 1074) == pow2(e) * pow2(1074),
                pow2(j + 74) == pow2(j) * pow2(74),
                pow2(e + 1074) * pow2((-x) as nat) == pow2(j + 74) * pow2(f),
        ;
    }
    assert(q * (m * c) <= high * c && high * c < (q + 1) * (m * c)) by (nonlinear_arith)
        requires
            q * m <= high,
            high < (q + 1) * m,
            c > 0,
    ;
    assert((q * (m * c) == high * c) == (q * m == high)) by (nonlinear_arith)
        requires
            c > 0,
    ;
}

/// Shifts a significand up until its leading bit is the hidden bit.
pub(crate) fn normalize(n: u64) -> (r: (u64, u32))
    requires
        0 < n < 2 * HIDDEN_BIT,
    ensures
        HIDDEN_BIT <= r.0 < 2 * HIDDEN_BIT,
        r.0 == n * pow2(r.1 as nat),
        r.1 <= 52,
{
    let mut s: u64 = n;
    let mut j: u32 = 0;
    proof {
        lemma2_to64();
    }
    while s < HIDDEN_BIT
        invariant
            0 < n,
            s < 2 * HIDDEN_BIT,
            s == n * pow2(j as nat),
            j <= 52,
        decreases 2 * HIDDEN_BIT - s,
    {
        proof {
            let p = pow2(j as nat);
            lemma_pow2_unfold((j + 1) as nat);
            lemma_pow2_pos(j as nat);
            assert(n * (2 * p) == 2 * s && s > 0 && s >= p) by (nonlinear_arith)
                requires
                    s == n * p,
                    n > 0,
                    p > 0,
            ;
            if j == 52 {
                lemma2_to64_rest();
            }
        }
        s = 2 * s;
        j = j + 1;
    }
    (s, j)
}

} // verus!
