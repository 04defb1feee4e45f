//! Rounding of exact results to binary64 numbers.
use vstd::arithmetic::div_mod::*;
use vstd::arithmetic::mul::*;
use vstd::arithmetic::power2::*;
use vstd::bits::*;
use vstd::prelude::*;

use super::{excess_bits, magnitude_of, nearest_even, round_units, Binary64, HIDDEN_BIT, INFINITE, SIGN_BIT};

verus! {

/// `pow2` does not decrease.
pub proof fn lemma_pow2_monotone(a: nat, b: nat)
    requires
        a <= b,
    ensures
        pow2(a) <= pow2(b),
{
    if a < b {
        lemma_pow2_strictly_increases(a, b);
    }
}

/// What is left after the excess bits has no more bits than `hidden`, and
/// exactly as many where any were in excess.
pub proof fn lemma_excess_bits(n: nat, hidden: nat)
    requires
        hidden > 0,
    ensures
        n / pow2(excess_bits(n, hidden)) < 2 * hidden,
        excess_bits(n, hidden) > 0 ==> n / pow2(excess_bits(n, hidden)) >= hidden,
    decreases n,
{
    lemma2_to64();
    let k = excess_bits(n, hidden);
    if n >= 2 * hidden {
        lemma_excess_bits(n / 2, hidden);
        lemma_pow2_unfold(k);
        lemma_pow2_pos((k - 1) as nat);
        lemma_div_denominator(n as int, 2, pow2((k - 1) as nat) as int);
    }
}

/// `excess_bits` counts the bits of a number that lies between two powers.
pub proof fn lemma_excess_bits_is(n: nat, k: nat, hidden: nat)
    requires
        hidden > 0,
        n < 2 * hidden * pow2(k),
        k == 0 || n >= hidden * pow2(k),
    ensures
        excess_bits(n, hidden) == k,
    decreases k,
{
    lemma2_to64();
    if k > 0 {
        let h = pow2((k - 1) as nat);
        lemma_pow2_unfold(k);
        lemma_pow2_pos((k - 1) as nat);
        assert(hidden * pow2(k) == 2 * (hidden * h)) by (nonlinear_arith)
            requires
                pow2(k) == 2 * h,
        ;
        assert(hidden * h >= hidden) by (nonlinear_arith)
            requires
                h >= 1,
        ;
        assert(2 * hidden * h == 2 * (hidden * h)) by (nonlinear_arith);
        assert(2 * hidden * pow2(k) == 2 * (hidden * pow2(k))) by (nonlinear_arith);
        assert(n >= 2 * hidden);
        lemma_excess_bits_is(n / 2, (k - 1) as nat, hidden);
        assert(excess_bits(n, hidden) == 1 + excess_bits(n / 2, hidden));
    } else {
        assert(n < 2 * hidden) by (nonlinear_arith)
            requires
                n < 2 * hidden * pow2(k),
                pow2(k) == 1,
        ;
    }
}

/// Scaling both sides of a ratio does not change how it rounds.
pub proof fn lemma_nearest_even_scales(n: nat, d: nat, c: nat)
    requires
        d > 0,
        c > 0,
    ensures
        nearest_even(n * c, d * c) == nearest_even(n, d),
{
    let q = (n / d) as int;
    let r = (n % d) as int;
    lemma_fundamental_div_mod(n as int, d as int);
    lemma_mod_bound(n as int, d as int);
    assert(n * c == q * (d * c) + r * c) by (nonlinear_arith)
        requires
            n == d * q + r,
    ;
    assert(0 <= r * c < d * c) by (nonlinear_arith)
        requires
            0 <= r < d,
            c > 0,
    ;
    lemma_fundamental_div_mod_converse((n * c) as int, (d * c) as int, q, r * c);
    assert((2 * r < d) == (2 * (r * c) < d * c)) by (nonlinear_arith)
        requires
            c > 0,
    ;
    assert((2 * r == d) == (2 * (r * c) == d * c)) by (nonlinear_arith)
        requires
            c > 0,
    ;
}

/// A ratio that lies `delta` parts of `d` above `n` rounds, after a division by
/// `s`, as `n` and the presence of such a part say.
pub proof fn lemma_nearest_even_of_bracketed(num: nat, d: nat, n: nat, s: nat)
    requires
        d > 0,
        s > 0,
        n * d <= num < (n + 1) * d,
        (s == 1 && num == n * d) || s % 2 == 0,
    ensures
        nearest_even(num, s * d) == ({
            let q = n / s;
            let r = n % s;
            if 2 * r < s || (2 * r == s && num == n * d && q % 2 == 0) {
                q
            } else {
                q + 1
            }
        }),
{
    let q = (n / s) as int;
    let r = (n % s) as int;
    let delta = num - n * d;
    lemma_fundamental_div_mod(n as int, s as int);
    lemma_mod_bound(n as int, s as int);
    assert(0 <= delta < d) by (nonlinear_arith)
        requires
            delta == num - n * d,
            n * d <= num < (n + 1) * d,
    ;
    let rem = r * d + delta;
    assert(num == q * (s * d) + rem) by (nonlinear_arith)
        requires
            n == s * q + r,
            delta == num - n * d,
            rem == r * d + delta,
    ;
    assert(0 <= rem < s * d) by (nonlinear_arith)
        requires
            0 <= r < s,
            0 <= delta < d,
            rem == r * d + delta,
    ;
    lemma_fundamental_div_mod_converse(num as int, (s * d) as int, q, rem);
    if s > 1 {
        let h = (s / 2) as int;
        assert(s == 2 * h);
        assert(s * d == 2 * (h * d)) by (nonlinear_arith)
            requires
                s == 2 * h,
        ;
        if r < h {
            assert(rem < h * d) by (nonlinear_arith)
                requires
                    r < h,
                    0 <= delta < d,
                    rem == r * d + delta,
            ;
        } else if r > h {
            assert(rem > h * d) by (nonlinear_arith)
                requires
                    r > h,
                    0 <= delta,
                    d > 0,
                    rem == r * d + delta,
            ;
        }
    } else {
        assert(rem == 0) by (nonlinear_arith)
            requires
                rem == r * d + delta,
                r == 0,
                delta == 0,
        ;
    }
}

/// `num / den` lies in `[n * 2^x, (n + 1) * 2^x)`.
pub open spec fn brackets(num: nat, den: nat, n: nat, x: int) -> bool {
    if x >= 0 {
        n * (pow2(x as nat) * den) <= num < (n + 1) * (pow2(x as nat) * den)
    } else {
        n * den <= num * pow2((-x) as nat) < (n + 1) * den
    }
}

/// `num / den` is `n * 2^x`.
pub open spec fn is_exactly(num: nat, den: nat, n: nat, x: int) -> bool {
    if x >= 0 {
        n * (pow2(x as nat) * den) == num
    } else {
        n * den == num * pow2((-x) as nat)
    }
}

/// How a bracketed ratio rounds: to `q * 2^k`, where `q` is `n` rounded after a
/// shift by `s` bits.
proof fn lemma_round_bracketed(num: nat, den: nat, n: nat, x: int, k: nat, s: nat, q: nat, hidden: nat)
    requires
        hidden > 0,
        den > 0,
        brackets(num, den, n, x),
        n >= hidden || x <= 0,
        k == if excess_bits(n, hidden) + x > 0 {
            excess_bits(n, hidden) + x
        } else {
            0
        },
        s == k - x,
        s > 0 || is_exactly(num, den, n, x),
        q == ({
            let w = n / pow2(s);
            let r = n % pow2(s);
            if 2 * r < pow2(s) || (2 * r == pow2(s) && is_exactly(num, den, n, x) && w % 2 == 0) {
                w
            } else {
                w + 1
            }
        }),
    ensures
        excess_bits(num / den, hidden) == k,
        round_units(num, den, hidden) == q * pow2(k),
        q <= 2 * hidden,
        k > 0 ==> q >= hidden,
{
    let a: nat = if x >= 0 {
        1
    } else {
        pow2((-x) as nat)
    };
    let b: nat = if x >= 0 {
        pow2(x as nat)
    } else {
        1
    };
    let d = b * den;
    let big = num * a;
    let ps = pow2(s);
    let pk = pow2(k);
    lemma2_to64();
    lemma_pow2_pos(s);
    lemma_pow2_pos(k);
    if x >= 0 {
        lemma_pow2_pos(x as nat);
        lemma_pow2_adds(s, x as nat);
    } else {
        lemma_pow2_pos((-x) as nat);
        lemma_pow2_adds(k, (-x) as nat);
    }
    assert(ps * b == pk * a) by {
        if x >= 0 {
            assert(pk * 1 == pk);
        } else {
            assert(ps * 1 == ps);
        }
    }
    assert(d > 0) by (nonlinear_arith)
        requires
            d == b * den,
            b > 0,
            den > 0,
    ;
    assert(n * d <= big < (n + 1) * d && (is_exactly(num, den, n, x) == (big == n * d))) by {
        if x >= 0 {
            assert(big == num);
        } else {
            assert(d == den);
        }
    }
    let w = (n / ps) as int;
    lemma_excess_bits(n, hidden);
    lemma_fundamental_div_mod(n as int, ps as int);
    lemma_mod_bound(n as int, ps as int);
    // The shifted value has no more bits than fit.
    assert(w < 2 * hidden && (k > 0 ==> w >= hidden)) by {
        let e = excess_bits(n, hidden);
        if k > 0 {
            assert(s == e);
            if e == 0 {
                assert(n as int / 1 == n);
            }
        } else {
            assert(s >= e);
            lemma_pow2_adds(e, (s - e) as nat);
            lemma_pow2_pos(e);
            lemma_pow2_pos((s - e) as nat);
            lemma_div_denominator(n as int, pow2(e) as int, pow2((s - e) as nat) as int);
            lemma_div_nonincreasing(n as int / (pow2(e) as int), pow2((s - e) as nat) as int);
        }
    }
    // The exact ratio lies between the same powers as the shifted value.
    let f = num / den;
    lemma_fundamental_div_mod(num as int, den as int);
    lemma_mod_bound(num as int, den as int);
    assert(den * pk * a == ps * d) by (nonlinear_arith)
        requires
            ps * b == pk * a,
            d == b * den,
    ;
    assert(n + 1 <= 2 * hidden * ps) by (nonlinear_arith)
        requires
            n == ps * w + n % ps,
            n % ps < ps,
            w + 1 <= 2 * hidden,
            ps > 0,
    ;
    assert(big < 2 * hidden * (ps * d)) by (nonlinear_arith)
        requires
            big < (n + 1) * d,
            n + 1 <= 2 * hidden * ps,
            d > 0,
    ;
    assert(f < 2 * hidden * pk) by (nonlinear_arith)
        requires
            big < 2 * hidden * (ps * d),
            den * pk * a == ps * d,
            big == num * a,
            num >= den * f,
            a > 0,
            den > 0,
    ;
    if k > 0 {
        assert(n >= hidden * ps) by (nonlinear_arith)
            requires
                n == ps * w + n % ps,
                n % ps >= 0,
                w >= hidden,
                ps > 0,
        ;
        assert(big >= hidden * (ps * d)) by (nonlinear_arith)
            requires
                big >= n * d,
                n >= hidden * ps,
                d > 0,
        ;
        assert(num >= hidden * pk * den) by (nonlinear_arith)
            requires
                big >= hidden * (ps * d),
                den * pk * a == ps * d,
                big == num * a,
                a > 0,
        ;
        let rest = (num % den) as int;
        assert(num < den * (f + 1)) by (nonlinear_arith)
            requires
                num == den * f + rest,
                rest < den,
        ;
        assert(f >= hidden * pk) by (nonlinear_arith)
            requires
                num >= hidden * pk * den,
                num < den * (f + 1),
                den > 0,
        ;
    }
    lemma_excess_bits_is(f, k, hidden);
    // And it rounds to the same count.
    lemma_mul_is_commutative(den as int, pk as int);
    assert(den * pk > 0) by (nonlinear_arith)
        requires
            den > 0,
            pk > 0,
    ;
    lemma_nearest_even_scales(num, den * pk, a);
    if s > 0 {
        lemma_pow2_unfold(s);
    }
    lemma_nearest_even_of_bracketed(big, d, n, ps);
}

/// The magnitude of a rounded count that is a multiple of a power of two: the
/// carry of a count that was rounded up to the next power goes into the
/// exponent field.
pub proof fn lemma_magnitude(q: nat, k: nat, hidden: nat)
    requires
        hidden > 0,
        q <= 2 * hidden,
        k == 0 || q >= hidden,
    ensures
        magnitude_of(q * pow2(k), hidden) == k * hidden + q,
{
    let u = q * pow2(k);
    lemma_pow2_pos(k);
    if q < 2 * hidden {
        assert(u < 2 * hidden * pow2(k)) by (nonlinear_arith)
            requires
                u == q * pow2(k),
                q < 2 * hidden,
                pow2(k) > 0,
        ;
        if k > 0 {
            assert(u >= hidden * pow2(k)) by (nonlinear_arith)
                requires
                    u == q * pow2(k),
                    q >= hidden,
            ;
        }
        lemma_excess_bits_is(u, k, hidden);
        lemma_div_by_multiple(q as int, pow2(k) as int);
    } else {
        let j = (k + 1) as nat;
        lemma_pow2_unfold(j);
        lemma_pow2_pos(j);
        assert(u == hidden * pow2(j)) by (nonlinear_arith)
            requires
                u == q * pow2(k),
                q == 2 * hidden,
                pow2(j) == 2 * pow2(k),
        ;
        assert(u < 2 * hidden * pow2(j)) by (nonlinear_arith)
            requires
                u == hidden * pow2(j),
                pow2(j) > 0,
                hidden > 0,
        ;
        lemma_excess_bits_is(u, j, hidden);
        lemma_div_by_multiple(hidden as int, pow2(j) as int);
        assert(j * hidden + hidden == k * hidden + q) by (nonlinear_arith)
            requires
                j == k + 1,
                q == 2 * hidden,
        ;
    }
}

/// A count of at most 53 bits, times a power of two, as a number.
pub proof fn lemma_of_rounded_units(negative: bool, q: nat, k: nat)
    requires
        q <= 2 * HIDDEN_BIT,
        k == 0 || q >= HIDDEN_BIT,
    ensures
        Binary64::of_units(negative, q * pow2(k)) == Binary64::of_magnitude(
            negative,
            if k * HIDDEN_BIT + q < INFINITE {
                (k * HIDDEN_BIT + q) as u64
            } else {
                INFINITE
            },
        ),
{
    lemma_magnitude(q, k, HIDDEN_BIT as nat);
}

/// `excess_bits` of a machine integer.
fn count_excess_bits(n: u128, hidden: u64) -> (k: u32)
    requires
        0 < hidden <= HIDDEN_BIT,
    ensures
        k == excess_bits(n as nat, hidden as nat),
        k <= 127,
{
    let mut m: u128 = n;
    let mut k: u32 = 0;
    proof {
        lemma2_to64();
    }
    while m >= 2 * hidden as u128
        invariant
            0 < hidden <= HIDDEN_BIT,
            k <= 127,
            m as nat * pow2(k as nat) <= n,
            excess_bits(n as nat, hidden as nat) == k + excess_bits(m as nat, hidden as nat),
        decreases m,
    {
        proof {
            let p = pow2(k as nat);
            lemma_pow2_unfold((k + 1) as nat);
            lemma_pow2_pos(k as nat);
            assert((m / 2) * (2 * p) <= n) by (nonlinear_arith)
                requires
                    m * p <= n,
                    2 * (m / 2) <= m,
                    p > 0,
            ;
            if k >= 127 {
                lemma2_to64();
                lemma_pow2_adds(64, 64);
                lemma_pow2_unfold(128);
                assert(pow2(128) == 0x1_0000_0000_0000_0000_0000_0000_0000_0000int)
                    by (nonlinear_arith)
                    requires
                        pow2(128) == pow2(64) * pow2(64),
                        pow2(64) == 0x10000000000000000,
                ;
                assert(m * p >= 2 * p) by (nonlinear_arith)
                    requires
                        m >= 2,
                ;
            }
        }
        m = m / 2;
        k = k + 1;
    }
    k
}

/// A ratio, rounded to `q * 2^k`.
///
/// The ratio is given by an integer `n` of at most 127 bits and an exponent,
/// between which and the next integer it lies, and by whether it lies above.
pub(crate) fn round_bracketed(
    n: u128,
    x: i32,
    inexact: bool,
    hidden: u64,
    Ghost(num): Ghost<nat>,
    Ghost(den): Ghost<nat>,
) -> (r: (u64, u32))
    requires
        0 < hidden <= HIDDEN_BIT,
        den > 0,
        n < 0x8000_0000_0000_0000_0000_0000_0000_0000,
        -100_000 <= x <= 100_000,
        brackets(num, den, n as nat, x as int),
        inexact == !is_exactly(num, den, n as nat, x as int),
        n >= hidden || x <= 0,
        inexact ==> n >= 2 * hidden || x < 0,
    ensures
        round_units(num, den, hidden as nat) == r.0 as nat * pow2(r.1 as nat),
        r.0 <= 2 * hidden,
        r.1 > 0 ==> r.0 >= hidden,
        r.1 <= 200_000,
{
    let e: i32 = count_excess_bits(n, hidden) as i32;
    let k: i32 = if e + x > 0 { e + x } else { 0 };
    let s: i32 = k - x;
    if s >= 128 {
        proof {
            lemma2_to64();
            lemma_pow2_adds(64, 64);
            assert(pow2(128) == 0x1_0000_0000_0000_0000_0000_0000_0000_0000int) by (nonlinear_arith)
                requires
                    pow2(128) == pow2(64) * pow2(64),
                    pow2(64) == 0x10000000000000000,
            ;
            lemma_pow2_monotone(128, s as nat);
            lemma_basic_div(n as int, pow2(s as nat) as int);
            lemma_small_mod(n as nat, pow2(s as nat));
            lemma_round_bracketed(
                num,
                den,
                n as nat,
                x as int,
                k as nat,
                s as nat,
                0,
                hidden as nat,
            );
        }
        return (0, k as u32);
    }
    let w: u128 = n >> (s as u128);
    let p: u128 = 1u128 << (s as u128);
    proof {
        lemma_u128_shr_is_div(n, s as u128);
        lemma_u128_power(s as u128);
        lemma_pow2_pos(s as nat);
        lemma_mod_bound(n as int, p as int);
    }
    let rest: u128 = n % p;
    let half: u128 = p / 2;
    let down: bool = rest < half || (s == 0) || (rest == half && !inexact && w % 2 == 0);
    let ghost q: nat = if down {
        w as nat
    } else {
        w as nat + 1
    };
    proof {
        if s == 0 {
            lemma2_to64();
        } else {
            lemma_pow2_unfold(s as nat);
        }
        lemma_round_bracketed(num, den, n as nat, x as int, k as nat, s as nat, q, hidden as nat);
    }
    (if down { w as u64 } else { w as u64 + 1 }, k as u32)
}

/// The number that is `num / den` units, rounded; the ratio is given as
/// [`round_bracketed`] takes it.
pub(crate) fn encode(
    negative: bool,
    n: u128,
    x: i32,
    inexact: bool,
    Ghost(num): Ghost<nat>,
    Ghost(den): Ghost<nat>,
) -> (r: Binary64)
    requires
        den > 0,
        n < 0x8000_0000_0000_0000_0000_0000_0000_0000,
        -100_000 <= x <= 100_000,
        brackets(num, den, n as nat, x as int),
        inexact == !is_exactly(num, den, n as nat, x as int),
        n >= HIDDEN_BIT || x <= 0,
        inexact ==> n >= 2 * HIDDEN_BIT || x < 0,
    ensures
        r == Binary64::of_units(negative, round_units(num, den, HIDDEN_BIT as nat)),
{
    let (q, k) = round_bracketed(n, x, inexact, HIDDEN_BIT, Ghost(num), Ghost(den));
    proof {
        lemma_of_rounded_units(negative, q as nat, k as nat);
    }
    let magnitude: u64;
    if k >= 2047 {
        magnitude = INFINITE;
    } else {
        let m: u64 = k as u64 * HIDDEN_BIT + q;
        magnitude = if m < INFINITE { m } else { INFINITE };
    }
    Binary64 { bits: if negative { SIGN_BIT + magnitude } else { magnitude } }
}

/// A single shifted bit is a power of two.
pub proof fn lemma_u128_power(s: u128)
    requires
        s < 128,
    ensures
        (1u128 << s) == pow2(s as nat),
    decreases s,
{
    lemma2_to64();
    if s == 0 {
        assert(1u128 << 0u128 == 1) by (bit_vector);
    } else {
        lemma_u128_power((s - 1) as u128);
        lemma_pow2_unfold(s as nat);
        assert((1u128 << s) == 2 * (1u128 << ((s - 1) as u128))) by (bit_vector)
            requires
                0 < s < 128,
        ;
    }
}

} // verus!
