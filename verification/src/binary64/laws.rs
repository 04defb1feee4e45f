//! What holds of binary64 arithmetic as a whole.
use vstd::arithmetic::div_mod::*;
use vstd::arithmetic::power2::*;
use vstd::prelude::*;

use super::rounding::{lemma_excess_bits, lemma_of_rounded_units, lemma_pow2_monotone};
use super::{excess_bits, nearest_even, round_units, Binary64, HIDDEN_BIT, INFINITE};

verus! {

/// The number of a count of at most 53 bits, times a power of two, has that
/// many units.
proof fn lemma_units_of(negative: bool, q: nat, k: nat)
    requires
        q < 2 * HIDDEN_BIT,
        k == 0 || q >= HIDDEN_BIT,
        k * HIDDEN_BIT + q < INFINITE,
    ensures
        Binary64::of_units(negative, q * pow2(k)).finite(),
        Binary64::of_units(negative, q * pow2(k)).abs_units() == q * pow2(k),
        Binary64::of_units(negative, q * pow2(k)).negative() == negative,
{
    lemma_of_rounded_units(negative, q, k);
    let n = Binary64::of_units(negative, q * pow2(k));
    let m = k * HIDDEN_BIT + q;
    assert(n.magnitude() == m);
    if q >= HIDDEN_BIT {
        let h = HIDDEN_BIT as int;
        assert(m as int == (k + 1) * h + (q - h)) by (nonlinear_arith)
            requires
                m == k * h + q,
        ;
        lemma_fundamental_div_mod_converse(m as int, h, (k + 1) as int, q - h);
    }
}

/// Every finite number is the number of its units.
pub proof fn units_determine_number(n: Binary64)
    requires
        n.finite(),
    ensures
        Binary64::of_units(n.negative(), n.abs_units()) == n,
{
    let (q, k) = (n.significand(), n.exponent());
    let h = HIDDEN_BIT as int;
    let m = n.magnitude();
    lemma_fundamental_div_mod(m, h);
    lemma_mod_bound(m, h);
    assert(k * h + q == m) by {
        if m < h {
            assert(0 * h == 0);
        } else {
            assert(k * h + (h + m % h) == m) by (nonlinear_arith)
                requires
                    m == h * (m / h) + m % h,
                    k == m / h - 1,
            ;
        }
    }
    lemma_of_rounded_units(n.negative(), q, k);
}

/// Rounding to the nearest integer does not change the order of two ratios.
proof fn lemma_nearest_even_monotone(a: nat, b: nat, d: nat)
    requires
        a <= b,
        d > 0,
    ensures
        nearest_even(a, d) <= nearest_even(b, d),
{
    lemma_fundamental_div_mod(a as int, d as int);
    lemma_fundamental_div_mod(b as int, d as int);
    lemma_mod_bound(a as int, d as int);
    lemma_mod_bound(b as int, d as int);
    lemma_div_is_ordered(a as int, b as int, d as int);
    if a / d == b / d {
        assert(a % d <= b % d);
    }
}

/// Bounds of a rounded ratio in terms of the power to which it is rounded.
pub proof fn lemma_round_units_bounds(num: nat, den: nat, hidden: nat)
    requires
        den > 0,
        hidden > 0,
    ensures
        ({
            let k = excess_bits(num / den, hidden);
            &&& nearest_even(num, den * pow2(k)) <= 2 * hidden
            &&& k > 0 ==> nearest_even(num, den * pow2(k)) >= hidden
        }),
{
    let k = excess_bits(num / den, hidden);
    lemma_excess_bits(num / den, hidden);
    lemma_pow2_pos(k);
    lemma_div_denominator(num as int, den as int, pow2(k) as int);
}

/// Rounding does not change the order of two ratios.
pub proof fn rounding_keeps_order(a: nat, b: nat, den: nat, hidden: nat)
    requires
        a <= b,
        den > 0,
        hidden > 0,
    ensures
        round_units(a, den, hidden) <= round_units(b, den, hidden),
{
    let j = excess_bits(a / den, hidden);
    let k = excess_bits(b / den, hidden);
    lemma_div_is_ordered(a as int, b as int, den as int);
    lemma_excess_bits_monotone(a / den, b / den, hidden);
    lemma_round_units_bounds(a, den, hidden);
    lemma_round_units_bounds(b, den, hidden);
    lemma_pow2_pos(j);
    lemma_pow2_pos(k);
    let p = nearest_even(a, den * pow2(j));
    let q = nearest_even(b, den * pow2(k));
    if j == k {
        assert(den * pow2(k) > 0) by (nonlinear_arith)
            requires
                den > 0,
                pow2(k) > 0,
        ;
        lemma_nearest_even_monotone(a, b, den * pow2(k));
        assert(p * pow2(k) <= q * pow2(k)) by (nonlinear_arith)
            requires
                p <= q,
        ;
    } else {
        lemma_pow2_unfold((j + 1) as nat);
        lemma_pow2_monotone((j + 1) as nat, k);
        assert(p * pow2(j) <= q * pow2(k)) by (nonlinear_arith)
            requires
                p <= 2 * hidden,
                q >= hidden,
                pow2(k) >= 2 * pow2(j),
        ;
    }
}

/// A greater number has no fewer bits.
proof fn lemma_excess_bits_monotone(a: nat, b: nat, hidden: nat)
    requires
        a <= b,
        hidden > 0,
    ensures
        excess_bits(a, hidden) <= excess_bits(b, hidden),
    decreases b,
{
    if a >= 2 * hidden {
        lemma_excess_bits_monotone(a / 2, b / 2, hidden);
    }
}

/// The number of a rounded ratio has as many units as the ratio rounds to, or
/// is infinite where those are too many.
pub proof fn rounded_number_has_units(negative: bool, num: nat, den: nat)
    requires
        den > 0,
    ensures
        ({
            let u = round_units(num, den, HIDDEN_BIT as nat);
            let n = Binary64::of_units(negative, u);
            &&& n.negative() == negative
            &&& n.finite() || n.infinite()
            &&& n.finite() ==> n.abs_units() == u
            &&& n.infinite() <==> u >= pow2(2098)
        }),
{
    let h = HIDDEN_BIT as nat;
    let k = excess_bits(num / den, h);
    let q = nearest_even(num, den * pow2(k));
    lemma_round_units_bounds(num, den, h);
    let u = q * pow2(k);
    lemma2_to64();
    lemma2_to64_rest();
    lemma_pow2_pos(k);
    // A carry into the next power of two is written with that power.
    let (p, j) = if q == 2 * h {
        (h, (k + 1) as nat)
    } else {
        (q, k)
    };
    lemma_pow2_unfold((k + 1) as nat);
    assert(u == p * pow2(j)) by {
        if q == 2 * h {
            assert(q * pow2(k) == h * (2 * pow2(k))) by (nonlinear_arith)
                requires
                    q == 2 * h,
            ;
        }
    }
    lemma_of_rounded_units(negative, p, j);
    lemma_pow2_pos(j);
    if j >= 2046 {
        // `p` has its leading bit.
        lemma_pow2_adds(52, j);
        lemma_pow2_monotone(2098, (52 + j) as nat);
        assert(u >= pow2((52 + j) as nat)) by (nonlinear_arith)
            requires
                u == p * pow2(j),
                p >= h,
                pow2((52 + j) as nat) == h * pow2(j),
        ;
        assert(j * h + p >= INFINITE) by (nonlinear_arith)
            requires
                j >= 2046,
                p >= h,
                h == 0x0010_0000_0000_0000,
                INFINITE == 0x7ff0_0000_0000_0000u64,
        ;
    } else {
        lemma_pow2_adds(53, j);
        lemma_pow2_monotone((53 + j) as nat, 2098);
        assert(u < pow2((53 + j) as nat)) by (nonlinear_arith)
            requires
                u == p * pow2(j),
                p < 2 * h,
                pow2((53 + j) as nat) == (2 * h) * pow2(j),
                pow2(j) > 0,
        ;
        assert(j * h + p < INFINITE) by (nonlinear_arith)
            requires
                j <= 2045,
                p < 2 * h,
                h == 0x0010_0000_0000_0000,
                INFINITE == 0x7ff0_0000_0000_0000u64,
        ;
        lemma_units_of(negative, p, j);
    }
}

/// A ratio that is a count of few enough bits, times a power of two, is its own
/// rounding.
pub proof fn rounding_keeps_counts(v: nat, x: nat, den: nat, hidden: nat)
    requires
        v < 2 * hidden,
        den > 0,
    ensures
        round_units((v * pow2(x)) * den, den, hidden) == v * pow2(x),
{
    let h = hidden;
    let u = v * pow2(x);
    lemma_div_by_multiple(u as int, den as int);
    let k = excess_bits(u, h);
    lemma2_to64();
    lemma_pow2_pos(x);
    lemma_pow2_pos(k);
    if k > x {
        // So many bits cannot be in excess.
        lemma_excess_bits(u, h);
        lemma_fundamental_div_mod(u as int, pow2(k) as int);
        lemma_mod_bound(u as int, pow2(k) as int);
        lemma_pow2_unfold((x + 1) as nat);
        lemma_pow2_monotone((x + 1) as nat, k);
        let q = u / pow2(k);
        assert(u >= pow2(k) * h) by (nonlinear_arith)
            requires
                u == pow2(k) * q + u % pow2(k),
                u % pow2(k) >= 0,
                q >= h,
        ;
        assert(u < pow2(k) * h) by (nonlinear_arith)
            requires
                u == v * pow2(x),
                v < 2 * h,
                pow2(k) >= 2 * pow2(x),
                pow2(x) > 0,
        ;
        assert(false);
    }
    let w = v * pow2((x - k) as nat);
    lemma_pow2_adds((x - k) as nat, k);
    assert(u == w * pow2(k)) by (nonlinear_arith)
        requires
            u == v * pow2(x),
            w == v * pow2((x - k) as nat),
            pow2(x) == pow2((x - k) as nat) * pow2(k),
    ;
    let d = den * pow2(k);
    assert(d > 0) by (nonlinear_arith)
        requires
            d == den * pow2(k),
            den > 0,
            pow2(k) > 0,
    ;
    assert(u * den == w * d) by (nonlinear_arith)
        requires
            u == w * pow2(k),
            d == den * pow2(k),
    ;
    lemma_fundamental_div_mod_converse((u * den) as int, d as int, w as int, 0);
}

/// A ratio that is a count of at most 53 bits, times a power of two, is its
/// own rounding.
pub proof fn rounding_keeps_short_counts(v: nat, x: nat, den: nat)
    requires
        v < 2 * HIDDEN_BIT,
        den > 0,
    ensures
        round_units((v * pow2(x)) * den, den, HIDDEN_BIT as nat) == v * pow2(x),
{
    rounding_keeps_counts(v, x, den, HIDDEN_BIT as nat);
}

/// A ratio is rounded by at most one part in twice its leading bit, and one unit.
pub proof fn rounding_error_is_bounded(num: nat, den: nat, hidden: nat)
    requires
        den > 0,
        hidden > 0,
    ensures
        ({
            let u = round_units(num, den, hidden);
            let p = 2 * hidden as int;
            &&& p * (u * den - num) <= num + p * den
            &&& p * (num - u * den) <= num + p * den
        }),
{
    let h = hidden as int;
    let p = 2 * h;
    let e = excess_bits(num / den, h as nat);
    let k = pow2(e) as int;
    let d = (den * pow2(e)) as int;
    lemma_excess_bits(num / den, h as nat);
    lemma_pow2_pos(e);
    lemma_div_denominator(num as int, den as int, k);
    assert(d > 0) by (nonlinear_arith)
        requires
            d == den * k,
            den > 0,
            k > 0,
    ;
    let q = nearest_even(num, d as nat);
    let u = round_units(num, den, h as nat);
    let low = num as int / d;
    let rest = num as int % d;
    lemma_fundamental_div_mod(num as int, d);
    lemma_mod_bound(num as int, d);
    let err = q * d - num;
    assert(u * den == q * d) by (nonlinear_arith)
        requires
            u == q * k,
            d == den * k,
    ;
    assert((low + 1) * d == d * low + d && low * d == d * low) by (nonlinear_arith);
    assert(2 * err <= d && -2 * err <= d);
    if e > 0 {
        assert(h * d <= num) by (nonlinear_arith)
            requires
                num == d * low + rest,
                rest >= 0,
                low >= h,
                d > 0,
        ;
        assert(p * err <= h * d && -(p * err) <= h * d) by (nonlinear_arith)
            requires
                2 * err <= d,
                -2 * err <= d,
                p == 2 * h,
                h > 0,
        ;
    } else {
        lemma2_to64();
        assert(d == den) by (nonlinear_arith)
            requires
                d == den * k,
                k == 1,
        ;
        assert(p * err <= p * den && -(p * err) <= p * den) by (nonlinear_arith)
            requires
                2 * err <= den,
                -2 * err <= den,
                den > 0,
                p > 0,
        ;
    }
    assert(p * (u * den - num) == p * err);
    assert(p * (num - u * den) == -(p * err)) by (nonlinear_arith)
        requires
            err == u * den - num,
    ;
    assert(p * den > 0) by (nonlinear_arith)
        requires
            p > 0,
            den > 0,
    ;
}

/// A ratio is rounded by at most one part in `2^53`, and one unit.
pub proof fn rounding_error_is_small(num: nat, den: nat)
    requires
        den > 0,
    ensures
        ({
            let u = round_units(num, den, HIDDEN_BIT as nat);
            let p = 2 * HIDDEN_BIT as int;
            &&& p * (u * den - num) <= num + p * den
            &&& p * (num - u * den) <= num + p * den
        }),
{
    rounding_error_is_bounded(num, den, HIDDEN_BIT as nat);
}

/// An integer that is not negative, as a number: it has so many whole units.
pub proof fn integer_has_units(v: nat)
    requires
        v < 2 * HIDDEN_BIT,
    ensures
        Binary64::of_integer(v as int).finite(),
        !Binary64::of_integer(v as int).negative(),
        Binary64::of_integer(v as int).abs_units() == v * pow2(1074),
{
    rounding_keeps_short_counts(v, 1074, 1);
    let u = v * pow2(1074);
    assert(u * 1 == u);
    rounded_number_has_units(false, u, 1);
    lemma2_to64();
    lemma2_to64_rest();
    lemma_pow2_pos(1074);
    lemma_pow2_adds(53, 1074);
    lemma_pow2_strictly_increases(1127, 2098);
    assert(u < pow2(1127)) by (nonlinear_arith)
        requires
            u == v * pow2(1074),
            v < pow2(53),
            pow2(1127) == pow2(53) * pow2(1074),
            pow2(1074) > 0,
    ;
}

/// A finite number has fewer than `2^2098` units.
pub proof fn finite_units_bounded(n: Binary64)
    requires
        n.finite(),
    ensures
        n.abs_units() < pow2(2098),
{
    let (q, k) = (n.significand(), n.exponent());
    lemma2_to64();
    lemma2_to64_rest();
    lemma_pow2_pos(k);
    lemma_pow2_adds(53, k);
    lemma_pow2_monotone((53 + k) as nat, 2098);
    assert(q * pow2(k) < pow2((53 + k) as nat)) by (nonlinear_arith)
        requires
            q < pow2(53),
            pow2((53 + k) as nat) == pow2(53) * pow2(k),
            pow2(k) > 0,
    ;
}

/// A sum is exact but for its rounding, by at most one part in `2^53`, and a unit, and
/// does not depend on the order of its terms.
pub proof fn sums_are_close(a: Binary64, b: Binary64)
    ensures
        a.plus(b) == b.plus(a),
        a.nan() || b.nan() ==> a.plus(b).nan(),
        a.finite() && b.finite() ==> {
            let r = a.plus(b);
            let sum = a.units() + b.units();
            let size = if sum < 0 {
                -sum
            } else {
                sum
            };
            let p = 2 * HIDDEN_BIT as int;
            &&& !r.nan()
            &&& r.finite() ==> -(size + p) <= p * (r.units() - sum) <= size + p
            &&& r.infinite() ==> size >= pow2(2097) && (r.negative() <==> sum < 0)
        },
{
    if a.finite() && b.finite() {
        let sum = a.units() + b.units();
        let size: nat = if sum < 0 {
            (-sum) as nat
        } else {
            sum as nat
        };
        lemma_signed_rounding(sum < 0, size, 1);
        if sum == 0 {
            lemma_signed_rounding(a.negative() && b.negative(), 0, 1);
            lemma2_to64();
            rounding_keeps_short_counts(0, 0, 1);
            assert((0 * pow2(0)) * 1 == 0 && 0 * pow2(0) == 0);
        }
    }
}

/// A product is exact but for its rounding, by at most one part in `2^53`, and a unit,
/// and does not depend on the order of its factors. Its sign is that of both.
pub proof fn products_are_close(a: Binary64, b: Binary64)
    ensures
        a.times(b) == b.times(a),
        a.nan() || b.nan() ==> a.times(b).nan(),
        a.finite() && b.finite() ==> {
            let r = a.times(b);
            let u = pow2(1074);
            let exact = a.abs_units() * b.abs_units();
            let p = 2 * HIDDEN_BIT as int;
            &&& !r.nan()
            &&& r.negative() <==> a.negative() != b.negative()
            &&& r.finite() ==> -(exact + p * u) <= p * (r.abs_units() * u - exact) <= exact + p * u
        },
{
    assert(a.abs_units() * b.abs_units() == b.abs_units() * a.abs_units()) by (nonlinear_arith);
    if a.finite() && b.finite() {
        lemma_pow2_pos(1074);
        lemma_signed_rounding(
            a.negative() != b.negative(),
            a.abs_units() * b.abs_units(),
            pow2(1074),
        );
    }
}

/// A quotient is exact but for its rounding, by at most one part in `2^53`, and a unit.
/// Its sign is that of both.
pub proof fn quotients_are_close(a: Binary64, b: Binary64)
    ensures
        a.nan() || b.nan() ==> a.over(b).nan(),
        a.finite() && b.finite() && !b.zero() ==> {
            let r = a.over(b);
            let v = b.abs_units();
            let exact = a.abs_units() * pow2(1074);
            let p = 2 * HIDDEN_BIT as int;
            &&& !r.nan()
            &&& r.negative() <==> a.negative() != b.negative()
            &&& r.finite() ==> -(exact + p * v) <= p * (r.abs_units() * v - exact) <= exact + p * v
        },
{
    if a.finite() && b.finite() && !b.zero() {
        super::arithmetic::lemma_abs_units_order(b, b);
        lemma_signed_rounding(
            a.negative() != b.negative(),
            a.abs_units() * pow2(1074),
            b.abs_units(),
        );
    }
}

/// What a rounded ratio is close to.
proof fn lemma_signed_rounding(negative: bool, num: nat, den: nat)
    requires
        den > 0,
    ensures
        ({
            let r = Binary64::of_units(negative, round_units(num, den, HIDDEN_BIT as nat));
            let p = 2 * HIDDEN_BIT as int;
            &&& !r.nan()
            &&& r.negative() == negative
            &&& r.finite() ==> -(num + p * den) <= p * (r.abs_units() * den - num) <= num + p * den
            &&& r.infinite() ==> num >= pow2(2097) * den
        }),
{
    let p = 2 * HIDDEN_BIT as int;
    let u = round_units(num, den, HIDDEN_BIT as nat);
    rounded_number_has_units(negative, num, den);
    rounding_error_is_small(num, den);
    assert(p * (num - u * den) == -(p * (u * den - num))) by (nonlinear_arith);
    let r = Binary64::of_units(negative, u);
    if r.infinite() && num < pow2(2097) * den {
        rounding_keeps_order(num, (1 * pow2(2097)) * den, den, HIDDEN_BIT as nat);
        rounding_keeps_short_counts(1, 2097, den);
        lemma_pow2_strictly_increases(2097, 2098);
    }
}

/// Numbers are compared by their values: infinities lie beyond all others, the two
/// zeros are the same, and what is no number is above nothing and at most nothing.
pub proof fn numbers_are_compared_by_value(a: Binary64, b: Binary64)
    ensures
        a.nan() || b.nan() ==> !a.above(b) && !a.at_most(b),
        !a.nan() && !b.nan() ==> (a.at_most(b) <==> !a.above(b)),
        a.finite() && b.finite() ==> (a.above(b) <==> a.units() > b.units()),
        a.infinite() && !a.negative() && b.finite() ==> a.above(b) && !b.above(a),
        a.infinite() && a.negative() && b.finite() ==> b.above(a) && !a.above(b),
        a.infinite() && b.infinite() ==> (a.above(b) <==> !a.negative() && b.negative()),
{
}

/// The floor and the ceiling of a number are the integers next to it.
pub proof fn floor_and_ceiling_are_next(n: Binary64)
    requires
        n.finite(),
    ensures
        n.floor() * pow2(1074) <= n.units() < (n.floor() + 1) * pow2(1074),
        (n.ceil() - 1) * pow2(1074) < n.units() <= n.ceil() * pow2(1074),
{
    let u = pow2(1074) as int;
    let v = n.units();
    lemma_pow2_pos(1074);
    lemma_fundamental_div_mod(v, u);
    lemma_mod_bound(v, u);
    lemma_fundamental_div_mod(-v, u);
    lemma_mod_bound(-v, u);
    let (q, r) = (v / u, v % u);
    let (s, t) = ((-v) / u, (-v) % u);
    assert(q * u <= v < (q + 1) * u) by (nonlinear_arith)
        requires
            v == u * q + r,
            0 <= r < u,
    ;
    assert((-s - 1) * u < v <= (-s) * u) by (nonlinear_arith)
        requires
            -v == u * s + t,
            0 <= t < u,
    ;
}

/// What infinities do: they outweigh every number, keep their sign, and cancel to nothing
/// that is a number.
pub proof fn infinities_outweigh_numbers(a: Binary64, b: Binary64)
    requires
        a.infinite(),
        !b.nan(),
    ensures
        b.finite() ==> a.plus(b) == a && a.minus(b) == a,
        b.infinite() ==> (a.plus(b).nan() <==> a.negative() != b.negative()),
        b.zero() ==> a.times(b).nan(),
        !b.zero() ==> a.times(b).infinite() && (a.times(b).negative() <==> a.negative()
            != b.negative()),
        b.infinite() ==> a.over(b).nan(),
        b.finite() ==> a.over(b).infinite() && b.over(a).zero(),
        !a.negative() ==> a.root() == a,
        a.negative() ==> a.root().nan(),
{
    if b.finite() {
        rounding_keeps_short_counts(0, 0, 1);
        assert((0 * pow2(0)) * 1 == 0 && 0 * pow2(0) == 0);
        rounded_number_has_units(b.negative() != a.negative(), 0, 1);
        lemma_pow2_pos(2098);
        super::arithmetic::lemma_abs_units_order(b.over(a), b.over(a));
    }
}

/// What is negated has the same size and the other sign.
pub proof fn negation_turns_the_sign(n: Binary64)
    ensures
        n.negated().negative() == !n.negative(),
        n.negated().magnitude() == n.magnitude(),
        n.finite() ==> n.negated().finite() && n.negated().units() == -n.units(),
{
}

} // verus!
