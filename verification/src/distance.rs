//! How far a vibration travels, how long, and how strong it arrives.
use vstd::arithmetic::div_mod::*;
use vstd::arithmetic::power2::*;
use vstd::prelude::*;

use crate::binary64::laws::{
    finite_units_bounded, integer_has_units, rounded_number_has_units, rounding_error_is_small,
    rounding_keeps_order, rounding_keeps_short_counts,
};
use crate::binary64::{round_units, Binary64, HIDDEN_BIT};
use crate::position::{BlockPos, Vector3};

verus! {

/// Detection range of a normal sculk sensor (blocks, spherical).
pub const SCULK_SENSOR_RANGE: i32 = 8;

/// Detection range of a calibrated sculk sensor.
pub const CALIBRATED_SCULK_SENSOR_RANGE: i32 = 16;

/// The detection range of a sensor.
pub open spec fn range_of(calibrated: bool) -> Binary64 {
    Binary64::of_integer(
        if calibrated {
            CALIBRATED_SCULK_SENSOR_RANGE as int
        } else {
            SCULK_SENSOR_RANGE as int
        },
    )
}

/// The detection range of a sensor.
pub fn sensor_range(calibrated: bool) -> (r: Binary64)
    ensures
        r == range_of(calibrated),
{
    Binary64::from_integer(
        if calibrated {
            CALIBRATED_SCULK_SENSOR_RANGE
        } else {
            SCULK_SENSOR_RANGE
        },
    )
}

/// A calibrated sensor hears farther than a normal one.
pub proof fn ranges_are_ordered()
    ensures
        range_of(false).finite(),
        range_of(true).finite(),
        range_of(false).units() < range_of(true).units(),
{
    integer_has_units(8);
    integer_has_units(16);
    lemma_pow2_pos(1074);
}

/// The Euclidean distance between a point and the center of a block, each
/// operation rounded.
pub open spec fn distance_to_center(pos: Vector3, block: BlockPos) -> Binary64 {
    let center = block.centered();
    let dx = pos.x.minus(center.x);
    let dy = pos.y.minus(center.y);
    let dz = pos.z.minus(center.z);
    dx.times(dx).plus(dy.times(dy)).plus(dz.times(dz)).root()
}

/// Euclidean distance between a position and a block center.
#[must_use]
pub fn center_distance(pos: Vector3, block: BlockPos) -> (r: Binary64)
    ensures
        r == distance_to_center(pos, block),
{
    let center = block.to_centered();
    let dx = pos.x.subtract(center.x);
    let dy = pos.y.subtract(center.y);
    let dz = pos.z.subtract(center.z);
    dx.multiply(dx).add_to(dy.multiply(dy)).add_to(dz.multiply(dz)).square_root()
}

/// The redstone strength at a distance: 15, less one for each fifteenth of the
/// range that the vibration has come, and never below 1. Without a positive
/// range it is 1, and so it is where the loss is not a number.
pub open spec fn strength(distance: Binary64, range: Binary64) -> int {
    let lost = Binary64::of_integer(15).over(range).times(distance);
    if range.at_most(Binary64::of_integer(0)) || lost.nan() {
        1
    } else if lost.infinite() {
        if lost.negative() {
            15
        } else {
            1
        }
    } else if 15 - lost.floor() < 1 {
        1
    } else if 15 - lost.floor() > 15 {
        15
    } else {
        15 - lost.floor()
    }
}

/// Distance-based redstone strength for an active sensor.
#[must_use]
pub fn redstone_strength(distance: Binary64, range: Binary64) -> (r: u8)
    ensures
        r == strength(distance, range),
        1 <= r <= 15,
{
    if range.is_at_most(Binary64::from_integer(0)) {
        return 1;
    }
    let lost = Binary64::from_integer(15).divide(range).multiply(distance);
    if lost.is_nan() {
        return 1;
    }
    (15 - lost.to_floor_between(0, 14)) as u8
}

/// How many ticks a vibration travels: a block takes one, and no vibration
/// arrives in less.
pub open spec fn ticks_to_travel(distance: Binary64) -> int {
    distance.ceil_within(u32::MAX as int)
}

/// How many ticks a vibration travels.
pub fn travel_ticks(distance: Binary64) -> (r: u32)
    ensures
        r == ticks_to_travel(distance),
        r >= 1,
{
    distance.to_ceil_within(u32::MAX)
}

/// `15 / range` is a positive number, which may be infinite.
proof fn lemma_steps_positive(range: Binary64)
    requires
        range.finite(),
        range.above(Binary64::of_integer(0)),
    ensures
        !Binary64::of_integer(15).over(range).nan(),
        !Binary64::of_integer(15).over(range).negative(),
        !Binary64::of_integer(15).over(range).zero(),
        !range.negative(),
        range.abs_units() > 0,
{
    let h = HIDDEN_BIT as nat;
    integer_has_units(0);
    integer_has_units(15);
    lemma_pow2_pos(1074);
    assert(0 * pow2(1074) == 0);
    assert(15 * pow2(1074) > 0);
    crate::binary64::arithmetic::lemma_abs_units_order(range, range);
    crate::binary64::arithmetic::lemma_abs_units_order(
        Binary64::of_integer(15),
        Binary64::of_integer(15),
    );
    let den = range.abs_units();
    let num = Binary64::of_integer(15).abs_units() * pow2(1074);
    rounded_number_has_units(false, num, den);
    finite_units_bounded(range);
    lemma_pow2_adds(1074, 1074);
    lemma_pow2_strictly_increases(2098, 2148);
    assert(num >= pow2(2148)) by (nonlinear_arith)
        requires
            num == (15 * pow2(1074)) * pow2(1074),
            pow2(2148) == pow2(1074) * pow2(1074),
    ;
    lemma2_to64();
    rounding_keeps_short_counts(1, 0, den);
    assert((1 * pow2(0)) * den == den) by (nonlinear_arith)
        requires
            pow2(0) == 1,
    ;
    rounding_keeps_order(den, num, den, h);
    let c = Binary64::of_integer(15).over(range);
    if c.finite() {
        crate::binary64::arithmetic::lemma_abs_units_order(c, c);
    }
}

/// The farther a vibration came, the weaker it arrives, or as strong: for any
/// range and any two distances that can be compared.
pub proof fn farther_is_not_stronger(near: Binary64, far: Binary64, range: Binary64)
    requires
        near.at_most(far),
        range.finite(),
        range.above(Binary64::of_integer(0)),
    ensures
        strength(near, range) >= strength(far, range),
{
    let c = Binary64::of_integer(15).over(range);
    lemma_steps_positive(range);
    lemma_pow2_pos(1074);
    let p = c.times(near);
    let q = c.times(far);
    if near.finite() {
        crate::binary64::arithmetic::lemma_abs_units_order(near, near);
    }
    if far.finite() {
        crate::binary64::arithmetic::lemma_abs_units_order(far, far);
    }
    if c.finite() {
        if near.finite() {
            rounded_number_has_units(near.negative(), c.abs_units() * near.abs_units(), pow2(1074));
        }
        if far.finite() {
            rounded_number_has_units(far.negative(), c.abs_units() * far.abs_units(), pow2(1074));
        }
    }
    if near.negative() && !near.zero() {
        if p.finite() {
            lemma_not_positive_floor(p);
        }
    } else if near.zero() {
        if c.finite() {
            assert(c.abs_units() * near.abs_units() == 0) by (nonlinear_arith)
                requires
                    near.abs_units() == 0,
            ;
            lemma2_to64();
            rounding_keeps_short_counts(0, 0, pow2(1074));
            assert((0 * pow2(0)) * pow2(1074) == 0);
            assert(p.abs_units() == 0);
            lemma_not_positive_floor(p);
        }
    } else if c.finite() && near.finite() && far.finite() {
        assert(c.abs_units() * near.abs_units() <= c.abs_units() * far.abs_units())
            by (nonlinear_arith)
            requires
                near.abs_units() <= far.abs_units(),
        ;
        rounding_keeps_order(
            c.abs_units() * near.abs_units(),
            c.abs_units() * far.abs_units(),
            pow2(1074),
            HIDDEN_BIT as nat,
        );
        if p.finite() && q.finite() {
            lemma_div_is_ordered(p.units(), q.units(), pow2(1074) as int);
        }
    }
}

/// What is not positive has a floor that is not either.
proof fn lemma_not_positive_floor(n: Binary64)
    requires
        n.finite(),
        n.units() <= 0,
    ensures
        n.floor() <= 0,
{
    lemma_pow2_pos(1074);
    lemma_div_is_ordered(n.units(), 0, pow2(1074) as int);
    lemma_div_of0(pow2(1074) as int);
}

/// At the place of the event a sensor gives the full signal.
pub proof fn full_strength_at_the_source(calibrated: bool)
    ensures
        strength(Binary64::of_integer(0), range_of(calibrated)) == 15,
{
    lemma_pow2_pos(1074);
    integer_has_units(0);
    lemma_sensor_range(calibrated);
    let zero = Binary64::of_integer(0);
    let c = Binary64::of_integer(15).over(range_of(calibrated));
    assert(c.abs_units() * zero.abs_units() == 0) by (nonlinear_arith)
        requires
            zero.abs_units() == 0,
    ;
    lemma2_to64();
    rounding_keeps_short_counts(0, 0, pow2(1074));
    assert((0 * pow2(0)) * pow2(1074) == 0);
    rounded_number_has_units(false, 0, pow2(1074));
    lemma_pow2_pos(2098);
    lemma_not_positive_floor(c.times(zero));
    lemma_div_of0(pow2(1074) as int);
}

/// At the end of its range, and beyond, a sensor gives the weakest signal.
pub proof fn least_strength_at_the_range(distance: Binary64, calibrated: bool)
    requires
        range_of(calibrated).at_most(distance),
    ensures
        strength(distance, range_of(calibrated)) == 1,
{
    lemma_sensor_range(calibrated);
    let range = range_of(calibrated);
    farther_is_not_stronger(range, distance, range);
}

/// The exact steps per block of a sensor, and the strength at its range.
proof fn lemma_sensor_range(calibrated: bool)
    ensures
        range_of(calibrated).finite(),
        range_of(calibrated).above(Binary64::of_integer(0)),
        Binary64::of_integer(15).over(range_of(calibrated)).finite(),
        strength(range_of(calibrated), range_of(calibrated)) == 1,
{
    let b: nat = if calibrated {
        16
    } else {
        8
    };
    let t: nat = if calibrated {
        4
    } else {
        3
    };
    let range = range_of(calibrated);
    let p = pow2(1074);
    lemma2_to64();
    lemma_pow2_pos(1074);
    integer_has_units(0);
    integer_has_units(15);
    integer_has_units(b);
    assert(0 * p == 0);
    crate::binary64::arithmetic::lemma_abs_units_order(range, range);
    lemma_steps_positive(range);
    let u = range.abs_units();
    let s = 15 * pow2((1074 - t) as nat);
    lemma_pow2_adds((1074 - t) as nat, t);
    lemma_pow2_pos((1074 - t) as nat);
    // The quotient is exact.
    assert((15 * p) * p == s * u) by (nonlinear_arith)
        requires
            s == 15 * pow2((1074 - t) as nat),
            u == b * p,
            p == pow2((1074 - t) as nat) * b,
    ;
    rounding_keeps_short_counts(15, (1074 - t) as nat, u);
    rounded_number_has_units(false, (15 * p) * p, u);
    lemma_pow2_strictly_increases(1074, 2094);
    lemma_pow2_unfold(2095);
    lemma_pow2_unfold(2096);
    lemma_pow2_unfold(2097);
    lemma_pow2_unfold(2098);
    assert(s <= 15 * p) by (nonlinear_arith)
        requires
            s == 15 * pow2((1074 - t) as nat),
            p == pow2((1074 - t) as nat) * b,
            b >= 1,
    ;
    let c = Binary64::of_integer(15).over(range);
    assert(c.abs_units() == s);
    // And so is the product: fifteen steps.
    assert(s * u == (15 * p) * p);
    rounding_keeps_short_counts(15, 1074, p);
    rounded_number_has_units(false, s * u, p);
    let lost = c.times(range);
    assert(lost.abs_units() == 15 * p);
    lemma_div_by_multiple(15, p as int);
}

/// A vibration within the range of a sensor arrives within as many ticks as
/// the range has blocks.
pub proof fn arrives_within_range_ticks(distance: Binary64, calibrated: bool)
    requires
        !distance.above(range_of(calibrated)),
    ensures
        1 <= ticks_to_travel(distance) <= if calibrated {
            16
        } else {
            8int
        },
{
    let b: nat = if calibrated {
        16
    } else {
        8
    };
    let p = pow2(1074) as int;
    lemma_pow2_pos(1074);
    integer_has_units(b);
    if !distance.nan() && !distance.negative() && distance.finite() {
        let u = distance.units();
        assert(u <= b * p);
        lemma_div_is_ordered(-(b * p), -u, p);
        assert(-(b * p) == p * (-(b as int))) by (nonlinear_arith);
        lemma_div_multiples_vanish(-(b as int), p);
    }
}

/// A signal lies between 1 and 15.
pub proof fn strength_is_a_signal(distance: Binary64, range: Binary64)
    ensures
        1 <= strength(distance, range) <= 15,
{
}

/// A normal sensor hears 8 blocks far, a calibrated one 16.
pub proof fn sensors_hear_eight_and_sixteen_blocks()
    ensures
        range_of(false).finite() && range_of(true).finite(),
        range_of(false).units() == 8 * pow2(1074),
        range_of(true).units() == 16 * pow2(1074),
{
    integer_has_units(8);
    integer_has_units(16);
}

/// A vibration travels one block in a tick: it takes as many ticks as the distance has
/// blocks, a begun one counted in full, and at least one. What is no distance takes
/// one, and what no count of ticks can hold the greatest.
pub proof fn ticks_are_begun_blocks(distance: Binary64)
    ensures
        ({
            let t = ticks_to_travel(distance);
            let u = pow2(1074);
            &&& 1 <= t <= u32::MAX
            &&& distance.nan() || distance.negative() ==> t == 1
            &&& distance.infinite() && !distance.negative() ==> t == u32::MAX
            &&& distance.finite() && !distance.negative() ==> {
                &&& t == 1 || (t - 1) * u < distance.units()
                &&& t == u32::MAX || distance.units() <= t * u
            }
        }),
{
    let u = pow2(1074) as int;
    lemma_pow2_pos(1074);
    if distance.finite() && !distance.negative() {
        let d = distance.units();
        let q = (-d) / u;
        lemma_fundamental_div_mod(-d, u);
        lemma_mod_bound(-d, u);
        let rest = (-d) % u;
        let c = -q;
        let t = ticks_to_travel(distance);
        assert((c - 1) * u < d <= c * u) by (nonlinear_arith)
            requires
                -d == u * q + rest,
                0 <= rest < u,
                c == -q,
        ;
        assert(t >= c ==> t * u >= c * u) by (nonlinear_arith)
            requires
                u > 0,
        ;
        assert(t <= c ==> (t - 1) * u <= (c - 1) * u) by (nonlinear_arith)
            requires
                u > 0,
        ;
    }
}

/// The steps per block of a sensor are exact: `15 / 8`, or `15 / 16`.
proof fn lemma_steps_of_sensor(calibrated: bool)
    ensures
        ({
            let b: nat = if calibrated {
                16
            } else {
                8
            };
            let c = Binary64::of_integer(15).over(range_of(calibrated));
            &&& c.finite()
            &&& !c.negative()
            &&& !c.zero()
            &&& c.abs_units() * b == 15 * pow2(1074)
            &&& !range_of(calibrated).at_most(Binary64::of_integer(0))
        }),
{
    let b: nat = if calibrated {
        16
    } else {
        8
    };
    let t: nat = if calibrated {
        4
    } else {
        3
    };
    let range = range_of(calibrated);
    let p = pow2(1074);
    lemma2_to64();
    lemma_pow2_pos(1074);
    integer_has_units(0);
    integer_has_units(15);
    integer_has_units(b);
    assert(0 * p == 0);
    crate::binary64::arithmetic::lemma_abs_units_order(range, range);
    lemma_steps_positive(range);
    let u = range.abs_units();
    let e = pow2((1074 - t) as nat);
    let s = 15 * e;
    lemma_pow2_adds((1074 - t) as nat, t);
    lemma_pow2_pos((1074 - t) as nat);
    assert((15 * p) * p == s * u) by (nonlinear_arith)
        requires
            s == 15 * e,
            u == b * p,
            p == e * b,
    ;
    rounding_keeps_short_counts(15, (1074 - t) as nat, u);
    rounded_number_has_units(false, (15 * p) * p, u);
    lemma_sensor_range(calibrated);
}

/// How strong a signal is at each distance: 15, less one for each fifteenth of the
/// range. At `k` fifteenths of the range, or farther, `k` are lost; and where `k` are
/// lost, the distance is no less than `k` fifteenths, up to one part in `2^53`, and a
/// unit, by which a number is rounded.
pub proof fn strength_falls_by_fifteenths(distance: Binary64, calibrated: bool, k: int)
    requires
        distance.finite(),
        !distance.negative(),
        1 <= k <= 14,
    ensures
        ({
            let b: int = if calibrated {
                16
            } else {
                8
            };
            let p = 2 * HIDDEN_BIT as int;
            let d = distance.units();
            let s = strength(distance, range_of(calibrated));
            &&& 15 * d >= k * b * pow2(1074) ==> s <= 15 - k
            &&& s <= 15 - k ==> (p + 1) * (15 * d) + p * b >= p * (k * b * pow2(1074))
        }),
{
    let b: int = if calibrated {
        16
    } else {
        8
    };
    let p = 2 * HIDDEN_BIT as int;
    let u = pow2(1074) as int;
    let d = distance.units();
    let c = Binary64::of_integer(15).over(range_of(calibrated));
    let lost = c.times(distance);
    lemma_pow2_pos(1074);
    lemma_steps_of_sensor(calibrated);
    let cu = c.abs_units() as int;
    let num = cu * d;
    assert(num >= 0) by (nonlinear_arith)
        requires
            num == cu * d,
            cu >= 0,
            d >= 0,
    ;
    assert(num * b == 15 * u * d) by (nonlinear_arith)
        requires
            num == cu * d,
            cu * b == 15 * u,
    ;
    rounded_number_has_units(false, num as nat, u as nat);
    let l = round_units(num as nat, u as nat, HIDDEN_BIT as nat) as int;
    let s = strength(distance, range_of(calibrated));
    if lost.finite() {
        lemma_floor_at_least(lost, k);
    }
    if 15 * d >= k * b * u {
        assert(num >= (k * u) * u) by (nonlinear_arith)
            requires
                num * b == 15 * u * d,
                15 * d >= k * b * u,
                b > 0,
                u > 0,
        {
            assert(15 * u * d == u * (15 * d));
            assert(u * (15 * d) >= u * (k * b * u));
            assert(u * (k * b * u) == ((k * u) * u) * b);
        }
        rounding_keeps_short_counts(k as nat, 1074, u as nat);
        rounding_keeps_order((k * u * u) as nat, num as nat, u as nat, HIDDEN_BIT as nat);
        assert((k * u) * u == k * u * u);
    }
    if s <= 15 - k {
        rounding_error_is_small(num as nat, u as nat);
        lemma_pow2_strictly_increases(1078, 2098);
        lemma2_to64();
        lemma_pow2_adds(4, 1074);
        assert(l >= k * u) by (nonlinear_arith)
            requires
                l >= k * u || l >= 16 * u,
                k <= 14,
                u > 0,
        ;
        assert((p + 1) * (15 * d) + p * b >= p * (k * b * u)) by (nonlinear_arith)
            requires
                p * (l * u - num) <= num + p * u,
                l >= k * u,
                num * b == 15 * u * d,
                b > 0,
                u > 0,
                p > 0,
        {
            assert(p * (l * u) >= p * ((k * u) * u));
            assert(p * ((k * u) * u) <= (p + 1) * num + p * u);
            assert((p * ((k * u) * u)) * b <= ((p + 1) * num + p * u) * b);
            assert((p * ((k * u) * u)) * b == u * (p * (k * b * u)));
            assert(((p + 1) * num + p * u) * b == (p + 1) * (num * b) + u * (p * b));
            assert((p + 1) * (15 * u * d) == u * ((p + 1) * (15 * d)));
        }
    }
}

/// The floor of a number is at least `k` where the number is.
proof fn lemma_floor_at_least(n: Binary64, k: int)
    requires
        n.finite(),
    ensures
        n.units() >= k * pow2(1074) <==> n.floor() >= k,
{
    let u = pow2(1074) as int;
    let v = n.units();
    let q = v / u;
    lemma_pow2_pos(1074);
    lemma_fundamental_div_mod(v, u);
    lemma_mod_bound(v, u);
    let rest = v % u;
    assert(v >= k * u <==> q >= k) by (nonlinear_arith)
        requires
            v == u * q + rest,
            0 <= rest < u,
    ;
}

/// What is not a distance, and what is not a range. A signal is strongest where nothing
/// is lost, and weakest where the range is used up, or is none, or there is no number.
pub proof fn strength_at_the_extremes(distance: Binary64, range: Binary64, calibrated: bool)
    ensures
        distance.nan() || range.nan() ==> strength(distance, range) == 1,
        range.finite() && range.units() <= 0 ==> strength(distance, range) == 1,
        range.infinite() && range.negative() ==> strength(distance, range) == 1,
        distance.infinite() ==> strength(distance, range_of(calibrated)) == if distance.negative() {
            15
        } else {
            1int
        },
        distance.finite() && distance.units() <= 0 ==> strength(distance, range_of(calibrated))
            == 15,
{
    integer_has_units(0);
    integer_has_units(15);
    lemma_pow2_pos(1074);
    assert(0 * pow2(1074) == 0);
    lemma_steps_of_sensor(calibrated);
    let c = Binary64::of_integer(15).over(range_of(calibrated));
    if distance.finite() && distance.units() <= 0 {
        crate::binary64::arithmetic::lemma_abs_units_order(distance, distance);
        rounded_number_has_units(
            c.negative() != distance.negative(),
            c.abs_units() * distance.abs_units(),
            pow2(1074),
        );
        let lost = c.times(distance);
        if !distance.negative() {
            assert(c.abs_units() * distance.abs_units() == 0) by (nonlinear_arith)
                requires
                    distance.abs_units() == 0,
            ;
            lemma2_to64();
            rounding_keeps_short_counts(0, 0, pow2(1074));
            assert((0 * pow2(0)) * pow2(1074) == 0);
            lemma_pow2_pos(2098);
        }
        if lost.finite() {
            lemma_not_positive_floor(lost);
        }
    }
}

/// How strong a signal is at any distance within any range: `k` are lost where the
/// distance is `k` fifteenths of the range. Both ways, up to the part in `2^53`, and
/// the unit, by which a quotient and a product are rounded.
pub proof fn strength_follows_distance_in_any_range(distance: Binary64, range: Binary64, k: int)
    requires
        distance.finite(),
        !distance.negative(),
        range.finite(),
        range.units() > 0,
        Binary64::of_integer(15).over(range).finite(),
        1 <= k <= 14,
    ensures
        ({
            let p = 2 * HIDDEN_BIT as int;
            let u = pow2(1074) as int;
            let d = distance.units();
            let r = range.units();
            let s = strength(distance, range);
            let used = 15 * u * u * d;
            let due = k * u * u * r;
            &&& s <= 15 - k ==> p * p * due <= (p + 1) * (p + 1) * used + (p + 1) * p * (r * d) + p
                * p * (u * r)
            &&& s > 15 - k ==> (p - 1) * (p - 1) * used <= p * p * due + (p - 1) * p * (r * d) + p
                * p * (u * r)
        }),
{
    let p = 2 * HIDDEN_BIT as int;
    let u = pow2(1074) as int;
    let d = distance.units();
    let r = range.units();
    let s = strength(distance, range);
    lemma_pow2_pos(1074);
    integer_has_units(0);
    integer_has_units(15);
    assert(0 * pow2(1074) == 0);
    lemma_steps_positive(range);
    let steps = Binary64::of_integer(15).over(range);
    let lost = steps.times(distance);
    let n = (15 * u) * u;
    assert(n > 0) by (nonlinear_arith)
        requires
            n == (15 * u) * u,
            u > 0,
    ;
    rounded_number_has_units(false, n as nat, r as nat);
    rounding_error_is_small(n as nat, r as nat);
    let c = steps.abs_units() as int;
    let num = c * d;
    assert(num >= 0) by (nonlinear_arith)
        requires
            num == c * d,
            c >= 0,
            d >= 0,
    ;
    rounded_number_has_units(false, num as nat, u as nat);
    rounding_error_is_small(num as nat, u as nat);
    let l = round_units(num as nat, u as nat, HIDDEN_BIT as nat) as int;
    lemma2_to64();
    lemma_pow2_adds(4, 1074);
    lemma_pow2_strictly_increases(1078, 2098);
    if lost.finite() {
        lemma_floor_at_least(lost, k);
    }
    assert(k * u <= 16 * u) by (nonlinear_arith)
        requires
            k <= 14,
            u > 0,
    ;
    assert(s <= 15 - k <==> l >= k * u);
    let used = 15 * u * u * d;
    let due = k * u * u * r;
    let m = k * u * u;
    assert(used == n * d) by (nonlinear_arith)
        requires
            used == 15 * u * u * d,
            n == (15 * u) * u,
    ;
    if l >= k * u {
        assert(p * m <= (p + 1) * num + p * u) by (nonlinear_arith)
            requires
                p * (l * u - num) <= num + p * u,
                l >= k * u,
                m == k * u * u,
                u > 0,
                p > 0,
        {
            assert(l * u >= m);
            assert(p * (l * u) >= p * m);
        }
        let a = p * m;
        let b = (p + 1) * num + p * u;
        assert(a * (p * r) <= b * (p * r)) by (nonlinear_arith)
            requires
                a <= b,
                p > 0,
                r > 0,
        ;
        assert(a * (p * r) == p * p * due) by (nonlinear_arith)
            requires
                a == p * m,
                due == m * r,
        ;
        let g = (p + 1) * num;
        assert(b * (p * r) == g * (p * r) + (p * u) * (p * r)) by (nonlinear_arith)
            requires
                b == g + p * u,
        ;
        assert((p * u) * (p * r) == p * p * (u * r)) by (nonlinear_arith);
        assert(g * (p * r) == (p + 1) * d * (p * (c * r))) by (nonlinear_arith)
            requires
                g == (p + 1) * num,
                num == c * d,
        ;
        let e = p * (c * r);
        let f = (p + 1) * n + p * r;
        assert(e <= f) by (nonlinear_arith)
            requires
                p * (c * r - n) <= n + p * r,
                e == p * (c * r),
                f == (p + 1) * n + p * r,
        ;
        assert((p + 1) * d * e <= (p + 1) * d * f) by (nonlinear_arith)
            requires
                e <= f,
                p > 0,
                d >= 0,
        ;
        assert((p + 1) * d * f == (p + 1) * (p + 1) * used + (p + 1) * p * (r * d))
            by (nonlinear_arith)
            requires
                f == (p + 1) * n + p * r,
                used == n * d,
        ;
    } else {
        assert((p - 1) * num <= p * m + p * u) by (nonlinear_arith)
            requires
                p * (num - l * u) <= num + p * u,
                l <= k * u,
                m == k * u * u,
                u > 0,
                p > 0,
        {
            assert(l * u <= m);
            assert(p * (l * u) <= p * m);
        }
        let a = (p - 1) * num;
        let b = p * m + p * u;
        assert(a * (p * r) <= b * (p * r)) by (nonlinear_arith)
            requires
                a <= b,
                p > 0,
                r > 0,
        ;
        assert(b * (p * r) == p * p * due + p * p * (u * r)) by (nonlinear_arith)
            requires
                b == p * m + p * u,
                due == m * r,
        ;
        assert(a * (p * r) == (p - 1) * d * (p * (c * r))) by (nonlinear_arith)
            requires
                a == (p - 1) * num,
                num == c * d,
        ;
        let e = p * (c * r);
        let f = (p - 1) * n - p * r;
        assert(e >= f) by (nonlinear_arith)
            requires
                p * (n - c * r) <= n + p * r,
                e == p * (c * r),
                f == (p - 1) * n - p * r,
        ;
        assert((p - 1) * d * e >= (p - 1) * d * f) by (nonlinear_arith)
            requires
                e >= f,
                p > 1,
                d >= 0,
        ;
        assert((p - 1) * d * f == (p - 1) * (p - 1) * used - (p - 1) * p * (r * d))
            by (nonlinear_arith)
            requires
                f == (p - 1) * n - p * r,
                used == n * d,
        ;
    }
}

} // verus!
