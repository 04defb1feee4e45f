//! Which blocks lie in reach of a point.
use vstd::arithmetic::div_mod::*;
use vstd::arithmetic::power2::*;
use vstd::prelude::*;

use crate::binary64::arithmetic::lemma_abs_units_order;
use crate::binary64::laws::{
    integer_has_units, rounded_number_has_units, rounding_keeps_order, rounding_keeps_short_counts,
};
use crate::binary64::root::{root_keeps_bound, root_keeps_order};
use crate::binary64::{round_units, Binary64, HIDDEN_BIT};
use crate::distance::{distance_to_center, range_of};
use crate::position::{BlockPos, Vector3};

verus! {

/// A number of so many units, or of more.
spec fn at_least(n: Binary64, units: nat) -> bool {
    &&& !n.nan()
    &&& !n.negative()
    &&& n.infinite() || n.abs_units() >= units
}

/// Rounding leaves a ratio above every short count that it is above.
proof fn lemma_rounded_at_least(num: nat, den: nat, v: nat, x: nat)
    requires
        v < 2 * HIDDEN_BIT,
        den > 0,
        num >= (v * pow2(x)) * den,
    ensures
        at_least(
            Binary64::of_units(false, round_units(num, den, HIDDEN_BIT as nat)),
            v * pow2(x),
        ),
{
    rounding_keeps_short_counts(v, x, den);
    rounding_keeps_order((v * pow2(x)) * den, num, den, HIDDEN_BIT as nat);
    rounded_number_has_units(false, num, den);
}

/// The sum of two numbers is not below either of them.
proof fn lemma_sum_at_least(a: Binary64, b: Binary64, v: nat, x: nat)
    requires
        v < 2 * HIDDEN_BIT,
        at_least(a, 0),
        at_least(b, 0),
        at_least(a, v * pow2(x)) || at_least(b, v * pow2(x)),
    ensures
        at_least(a.plus(b), v * pow2(x)),
{
    if a.finite() && b.finite() {
        let sum = (a.units() + b.units()) as nat;
        lemma_rounded_at_least(sum, 1, v, x);
        if sum == 0 {
            lemma2_to64();
            lemma_rounded_at_least(0, 1, 0, 0);
            rounding_keeps_short_counts(0, 0, 1);
            assert((0 * pow2(0)) * 1 == 0);
        }
    }
}

/// A square is not negative.
proof fn lemma_square(d: Binary64)
    requires
        !d.nan(),
    ensures
        at_least(d.times(d), 0),
{
    if d.finite() {
        lemma_pow2_pos(1074);
        rounded_number_has_units(false, d.abs_units() * d.abs_units(), pow2(1074));
    }
}

/// A coordinate that is at least 16.5 away has a square of at least 272.25.
proof fn lemma_far_square(d: Binary64)
    requires
        !d.nan(),
        d.infinite() || d.abs_units() >= 33 * pow2(1073),
    ensures
        at_least(d.times(d), 1089 * pow2(1072)),
{
    let w = pow2(1074);
    let h = pow2(1073);
    lemma_pow2_pos(1074);
    if d.finite() {
        let u = d.abs_units();
        lemma_pow2_adds(1073, 1073);
        lemma_pow2_adds(1072, 1074);
        assert(u * u >= (1089 * pow2(1072)) * w) by (nonlinear_arith)
            requires
                u >= 33 * h,
                h * h == pow2(1072) * w,
        ;
        lemma_rounded_at_least(u * u, w, 1089, 1072);
    }
}

/// The root of at least 272.25 is at least 16.5.
proof fn lemma_far_root(n: Binary64)
    requires
        at_least(n, 1089 * pow2(1072)),
    ensures
        at_least(n.root(), 33 * pow2(1073)),
{
    let h = pow2(1073);
    lemma_pow2_pos(1072);
    lemma_pow2_pos(1073);
    if n.finite() {
        lemma_abs_units_order(n, n);
        lemma_pow2_adds(1073, 1073);
        lemma_pow2_adds(1072, 1074);
        let u = n.abs_units();
        assert((33 * h) * (33 * h) <= u * pow2(1074)) by (nonlinear_arith)
            requires
                u >= 1089 * pow2(1072),
                h * h == pow2(1072) * pow2(1074),
        ;
        root_keeps_order(u * pow2(1074), 33, 1073);
    }
}

/// A block that is more than 16 blocks from the one that holds a point is, in
/// that direction, at least 16.5 away from the point.
proof fn lemma_far_coordinate(a: Binary64, v: i32)
    requires
        !a.nan(),
        i32::MIN + 16 <= a.floor_i32() <= i32::MAX - 16,
        v - a.floor_i32() > 16 || a.floor_i32() - v > 16,
    ensures
        ({
            let d = a.minus(BlockPos::center_of(v as int));
            !d.nan() && (d.infinite() || d.abs_units() >= 33 * pow2(1073))
        }),
{
    let c = BlockPos::center_of(v as int);
    let h = pow2(1073) as int;
    let u = pow2(1074) as int;
    let f = a.floor_i32();
    lemma_center_units(v);
    lemma_pow2_pos(1073);
    lemma_pow2_unfold(1074);
    let t = a.units();
    lemma_fundamental_div_mod(t, u);
    lemma_mod_bound(t, u);
    let sum = t - c.units();
    assert(c.negated().units() == -c.units());
    let k = 2 * v + 1;
    let rest = t % u;
    if v - f > 16 {
        assert(sum <= -33 * h) by (nonlinear_arith)
            requires
                sum == t - k * h,
                t == u * f + rest,
                rest < u,
                u == 2 * h,
                k >= 2 * f + 35,
                h > 0,
        ;
        lemma_rounded_at_least_signed(true, (-sum) as nat);
    } else {
        assert(sum >= 33 * h) by (nonlinear_arith)
            requires
                sum == t - k * h,
                t == u * f + rest,
                rest >= 0,
                u == 2 * h,
                k <= 2 * f - 33,
                h > 0,
        ;
        lemma_rounded_at_least_signed(false, sum as nat);
    }
}

proof fn lemma_rounded_at_least_signed(negative: bool, n: nat)
    requires
        n >= 33 * pow2(1073),
    ensures
        ({
            let d = Binary64::of_units(negative, round_units(n, 1, HIDDEN_BIT as nat));
            !d.nan() && (d.infinite() || d.abs_units() >= 33 * pow2(1073))
        }),
{
    rounding_keeps_short_counts(33, 1073, 1);
    rounding_keeps_order((33 * pow2(1073)) * 1, n, 1, HIDDEN_BIT as nat);
    rounded_number_has_units(negative, n, 1);
}

/// The center of a block lies half a block above its coordinate.
pub proof fn lemma_center_units(v: i32)
    ensures
        BlockPos::center_of(v as int).finite(),
        BlockPos::center_of(v as int).units() == (2 * v + 1) * pow2(1073),
{
    let k = 2 * v + 1;
    let n: nat = if k < 0 {
        (-k) as nat
    } else {
        k as nat
    };
    let h = pow2(1073);
    rounding_keeps_short_counts(n, 1073, 1);
    assert((n * h) * 1 == n * h);
    rounded_number_has_units(k < 0, n * h, 1);
    lemma2_to64_rest();
    lemma_pow2_pos(1073);
    lemma_pow2_adds(33, 1073);
    lemma_pow2_strictly_increases(1106, 2098);
    assert(n * h < pow2(33) * h) by (nonlinear_arith)
        requires
            n < pow2(33),
            h > 0,
    ;
    assert(-((n * h) as int) == (-(n as int)) * h) by (nonlinear_arith);
}

/// The distance from a point to a block is a number.
pub proof fn distances_are_numbers(pos: Vector3, p: BlockPos)
    requires
        BlockPos::holding(pos).has_room(16),
        !pos.x.nan(),
        !pos.y.nan(),
        !pos.z.nan(),
    ensures
        !distance_to_center(pos, p).nan(),
{
    let center = p.centered();
    let dx = pos.x.minus(center.x);
    let dy = pos.y.minus(center.y);
    let dz = pos.z.minus(center.z);
    lemma_difference_is_number(pos.x, p.x);
    lemma_difference_is_number(pos.y, p.y);
    lemma_difference_is_number(pos.z, p.z);
    lemma_square(dx);
    lemma_square(dy);
    lemma_square(dz);
    assert(0 * pow2(0) == 0);
    lemma_sum_at_least(dx.times(dx), dy.times(dy), 0, 0);
    let n = dx.times(dx).plus(dy.times(dy)).plus(dz.times(dz));
    lemma_sum_at_least(dx.times(dx).plus(dy.times(dy)), dz.times(dz), 0, 0);
    if n.finite() && !n.zero() {
        root_keeps_order(n.abs_units() * pow2(1074), 0, 0);
    }
}

proof fn lemma_difference_is_number(a: Binary64, v: i32)
    requires
        a.finite(),
    ensures
        !a.minus(BlockPos::center_of(v as int)).nan(),
{
    let c = BlockPos::center_of(v as int);
    lemma_center_units(v);
    let sum = a.units() + c.negated().units();
    if sum == 0 {
        rounding_keeps_short_counts(0, 0, 1);
        assert((0 * pow2(0)) * 1 == 0 && 0 * pow2(0) == 0);
        rounded_number_has_units(a.negative() && c.negated().negative(), 0, 1);
    } else if sum < 0 {
        rounded_number_has_units(true, (-sum) as nat, 1);
    } else {
        rounded_number_has_units(false, sum as nat, 1);
    }
}

/// A block whose center is in reach of a point lies, in each direction, at most
/// 16 blocks from the block that holds the point.
pub proof fn blocks_in_reach_are_near(pos: Vector3, p: BlockPos)
    requires
        BlockPos::holding(pos).has_room(16),
        distance_to_center(pos, p).at_most(range_of(true)),
    ensures
        -16 <= p.x - BlockPos::holding(pos).x <= 16,
        -16 <= p.y - BlockPos::holding(pos).y <= 16,
        -16 <= p.z - BlockPos::holding(pos).z <= 16,
{
    let center = p.centered();
    let dx = pos.x.minus(center.x);
    let dy = pos.y.minus(center.y);
    let dz = pos.z.minus(center.z);
    let n = dx.times(dx).plus(dy.times(dy)).plus(dz.times(dz));
    assert(!dx.nan() && !dy.nan() && !dz.nan());
    lemma_square(dx);
    lemma_square(dy);
    lemma_square(dz);
    assert(0 * pow2(0) == 0);
    lemma_sum_at_least(dx.times(dx), dy.times(dy), 0, 0);
    let far_x = !(-16 <= p.x - BlockPos::holding(pos).x <= 16);
    let far_y = !(-16 <= p.y - BlockPos::holding(pos).y <= 16);
    let far_z = !(-16 <= p.z - BlockPos::holding(pos).z <= 16);
    if far_x || far_y {
        if far_x {
            lemma_far_coordinate(pos.x, p.x);
            lemma_far_square(dx);
        } else {
            lemma_far_coordinate(pos.y, p.y);
            lemma_far_square(dy);
        }
        lemma_sum_at_least(dx.times(dx), dy.times(dy), 1089, 1072);
    } else if far_z {
        lemma_far_coordinate(pos.z, p.z);
        lemma_far_square(dz);
    }
    if far_x || far_y || far_z {
        lemma_sum_at_least(dx.times(dx).plus(dy.times(dy)), dz.times(dz), 1089, 1072);
        lemma_far_root(n);
        integer_has_units(16);
        lemma_pow2_unfold(1074);
        lemma_pow2_pos(1073);
    }
}

/// The center of a block is half a block from both of its sides, in every
/// direction.
pub proof fn centers_lie_in_the_middle(p: BlockPos)
    ensures
        p.centered().x.finite() && p.centered().y.finite() && p.centered().z.finite(),
        2 * p.centered().x.units() == p.x * pow2(1074) + (p.x + 1) * pow2(1074),
        2 * p.centered().y.units() == p.y * pow2(1074) + (p.y + 1) * pow2(1074),
        2 * p.centered().z.units() == p.z * pow2(1074) + (p.z + 1) * pow2(1074),
        BlockPos::holding(p.centered()) == p,
{
    lemma_center_middle(p.x);
    lemma_center_middle(p.y);
    lemma_center_middle(p.z);
}

proof fn lemma_center_middle(v: i32)
    ensures
        ({
            let c = BlockPos::center_of(v as int);
            &&& c.finite()
            &&& 2 * c.units() == v * pow2(1074) + (v + 1) * pow2(1074)
            &&& c.floor_i32() == v
        }),
{
    let c = BlockPos::center_of(v as int);
    let h = pow2(1073) as int;
    let u = pow2(1074) as int;
    lemma_center_units(v);
    lemma_pow2_pos(1073);
    lemma_pow2_unfold(1074);
    assert(2 * ((2 * v + 1) * h) == v * u + (v + 1) * u) by (nonlinear_arith)
        requires
            u == 2 * h,
    ;
    assert((2 * v + 1) * h == v * u + h) by (nonlinear_arith)
        requires
            u == 2 * h,
    ;
    lemma_fundamental_div_mod_converse(c.units(), u, v as int, h);
}

/// The exact difference between a coordinate and that of a block's center, without its
/// sign.
pub open spec fn apart(a: Binary64, v: i32) -> nat {
    let d = 2 * a.units() - (2 * v + 1) * pow2(1074);
    if d < 0 {
        (-d) as nat
    } else {
        d as nat
    }
}

/// A rounded difference against the exact one.
proof fn lemma_difference_bounds(a: Binary64, v: i32, w: nat, x: nat)
    requires
        a.finite(),
        w < 2 * HIDDEN_BIT,
    ensures
        ({
            let d = a.minus(BlockPos::center_of(v as int));
            &&& !d.nan()
            &&& apart(a, v) >= 2 * (w * pow2(x)) ==> d.infinite() || d.abs_units() >= w * pow2(x)
            &&& apart(a, v) <= 2 * (w * pow2(x)) && w * pow2(x) < pow2(2098) ==> d.finite()
                && d.abs_units() <= w * pow2(x)
        }),
{
    let c = BlockPos::center_of(v as int);
    let h = pow2(1073) as int;
    let s = w * pow2(x);
    lemma_difference_is_number(a, v);
    lemma_center_units(v);
    lemma_pow2_unfold(1074);
    lemma_pow2_pos(2098);
    assert(2 * ((2 * v + 1) * h) == (2 * v + 1) * pow2(1074)) by (nonlinear_arith)
        requires
            pow2(1074) == 2 * h,
    ;
    assert(c.negated().units() == -c.units());
    let sum = a.units() + c.negated().units();
    let size: nat = if sum < 0 {
        (-sum) as nat
    } else {
        sum as nat
    };
    assert(apart(a, v) == 2 * size);
    rounding_keeps_short_counts(w, x, 1);
    assert(s * 1 == s);
    if size >= s {
        rounding_keeps_order(s, size, 1, HIDDEN_BIT as nat);
    }
    if size <= s {
        rounding_keeps_order(size, s, 1, HIDDEN_BIT as nat);
    }
    rounded_number_has_units(sum < 0, size, 1);
    if sum == 0 {
        rounding_keeps_short_counts(0, 0, 1);
        assert((0 * pow2(0)) * 1 == 0 && 0 * pow2(0) == 0);
        rounded_number_has_units(a.negative() && c.negated().negative(), 0, 1);
    }
}

/// The square of a short count.
proof fn lemma_short_square(w: nat, x: nat)
    requires
        x >= 537,
    ensures
        (w * pow2(x)) * (w * pow2(x)) == ((w * w) * pow2((2 * x - 1074) as nat)) * pow2(1074),
{
    let e = pow2(x);
    let f = pow2((2 * x - 1074) as nat);
    let u = pow2(1074);
    lemma_pow2_adds(x, x);
    lemma_pow2_adds((2 * x - 1074) as nat, 1074);
    assert((w * e) * (w * e) == (w * w) * (e * e)) by (nonlinear_arith);
    assert((w * w) * (f * u) == ((w * w) * f) * u) by (nonlinear_arith);
}

/// The distance to a block is no less than the difference in any direction: whichever
/// short count that reaches, the distance does.
pub proof fn distance_reaches_every_difference(pos: Vector3, p: BlockPos, w: nat, x: nat)
    requires
        pos.x.finite() && pos.y.finite() && pos.z.finite(),
        w <= 0x3ff_ffff,
        537 <= x,
        apart(pos.x, p.x) >= 2 * (w * pow2(x)) || apart(pos.y, p.y) >= 2 * (w * pow2(x)) || apart(
            pos.z,
            p.z,
        ) >= 2 * (w * pow2(x)),
    ensures
        ({
            let distance = distance_to_center(pos, p);
            &&& !distance.nan()
            &&& !distance.negative()
            &&& distance.infinite() || distance.abs_units() >= w * pow2(x)
        }),
{
    let center = p.centered();
    let dx = pos.x.minus(center.x);
    let dy = pos.y.minus(center.y);
    let dz = pos.z.minus(center.z);
    lemma_difference_bounds(pos.x, p.x, w, x);
    lemma_difference_bounds(pos.y, p.y, w, x);
    lemma_difference_bounds(pos.z, p.z, w, x);
    lemma_square(dx);
    lemma_square(dy);
    lemma_square(dz);
    let y = (2 * x - 1074) as nat;
    assert(w * w <= 0x3ff_ffff * 0x3ff_ffff) by (nonlinear_arith)
        requires
            0 <= w <= 0x3ff_ffff,
    ;
    if apart(pos.x, p.x) >= 2 * (w * pow2(x)) {
        lemma_square_at_least(dx, w, x);
    }
    if apart(pos.y, p.y) >= 2 * (w * pow2(x)) {
        lemma_square_at_least(dy, w, x);
    }
    if apart(pos.z, p.z) >= 2 * (w * pow2(x)) {
        lemma_square_at_least(dz, w, x);
    }
    assert(0 * pow2(0) == 0);
    let sum = dx.times(dx).plus(dy.times(dy));
    lemma_sum_at_least(dx.times(dx), dy.times(dy), 0, 0);
    if apart(pos.x, p.x) >= 2 * (w * pow2(x)) || apart(pos.y, p.y) >= 2 * (w * pow2(x)) {
        lemma_sum_at_least(dx.times(dx), dy.times(dy), w * w, y);
    }
    lemma_sum_at_least(sum, dz.times(dz), w * w, y);
    let n = sum.plus(dz.times(dz));
    lemma_abs_units_order_if_finite(n);
    if n.finite() {
        lemma_short_square(w, x);
        lemma_pow2_pos(1074);
        let u = n.abs_units();
        assert((w * pow2(x)) * (w * pow2(x)) <= u * pow2(1074)) by (nonlinear_arith)
            requires
                (w * pow2(x)) * (w * pow2(x)) == ((w * w) * pow2(y)) * pow2(1074),
                u >= (w * w) * pow2(y),
        ;
        root_keeps_order(u * pow2(1074), w, x);
        if n.zero() {
            assert((w * pow2(x)) * (w * pow2(x)) <= 0) by (nonlinear_arith)
                requires
                    (w * pow2(x)) * (w * pow2(x)) <= u * pow2(1074),
                    u == 0,
            ;
            let s = w * pow2(x);
            assert(s == 0) by (nonlinear_arith)
                requires
                    s * s <= 0,
            ;
        }
    }
}

proof fn lemma_abs_units_order_if_finite(n: Binary64)
    ensures
        n.finite() ==> (n.abs_units() == 0 <==> n.zero()),
{
    if n.finite() {
        lemma_abs_units_order(n, n);
    }
}

/// The square of what reaches a short count.
proof fn lemma_square_at_least(d: Binary64, w: nat, x: nat)
    requires
        !d.nan(),
        d.infinite() || d.abs_units() >= w * pow2(x),
        w <= 0x3ff_ffff,
        x >= 537,
    ensures
        at_least(d.times(d), (w * w) * pow2((2 * x - 1074) as nat)),
{
    let s = w * pow2(x);
    lemma_pow2_pos(1074);
    assert(w * w <= 0x3ff_ffff * 0x3ff_ffff) by (nonlinear_arith)
        requires
            0 <= w <= 0x3ff_ffff,
    ;
    if d.finite() {
        let u = d.abs_units();
        lemma_short_square(w, x);
        assert(u * u >= s * s) by (nonlinear_arith)
            requires
                u >= s,
                s >= 0,
        ;
        lemma_rounded_at_least(u * u, pow2(1074), w * w, (2 * x - 1074) as nat);
    }
}

/// A number that is not negative, of at most so many units.
spec fn at_most_units(n: Binary64, units: nat) -> bool {
    n.finite() && !n.negative() && n.abs_units() <= units
}

/// Rounding leaves a ratio below every short count that it is below.
proof fn lemma_rounded_at_most(num: nat, den: nat, v: nat, x: nat)
    requires
        v < 2 * HIDDEN_BIT,
        den > 0,
        num <= (v * pow2(x)) * den,
        v * pow2(x) < pow2(2098),
    ensures
        at_most_units(
            Binary64::of_units(false, round_units(num, den, HIDDEN_BIT as nat)),
            v * pow2(x),
        ),
{
    rounding_keeps_short_counts(v, x, den);
    rounding_keeps_order(num, (v * pow2(x)) * den, den, HIDDEN_BIT as nat);
    rounded_number_has_units(false, num, den);
}

proof fn lemma_sum_at_most(a: Binary64, v: nat, b: Binary64, w: nat, x: nat)
    requires
        v + w < 2 * HIDDEN_BIT,
        at_most_units(a, v * pow2(x)),
        at_most_units(b, w * pow2(x)),
        (v + w) * pow2(x) < pow2(2098),
    ensures
        at_most_units(a.plus(b), (v + w) * pow2(x)),
{
    let sum = a.abs_units() + b.abs_units();
    assert(sum <= ((v + w) * pow2(x)) * 1) by (nonlinear_arith)
        requires
            sum <= v * pow2(x) + w * pow2(x),
    ;
    lemma_rounded_at_most(sum, 1, v + w, x);
    if sum == 0 {
        rounding_keeps_short_counts(0, 0, 1);
        assert((0 * pow2(0)) * 1 == 0 && 0 * pow2(0) == 0);
        rounded_number_has_units(false, 0, 1);
        lemma_pow2_pos(2098);
    }
}

/// The distance to a block is no more than twice the greatest difference in any
/// direction.
pub proof fn distance_is_within_twice_the_differences(pos: Vector3, p: BlockPos, w: nat, x: nat)
    requires
        pos.x.finite() && pos.y.finite() && pos.z.finite(),
        w <= 0x1ff_ffff,
        537 <= x <= 1100,
        apart(pos.x, p.x) <= 2 * (w * pow2(x)),
        apart(pos.y, p.y) <= 2 * (w * pow2(x)),
        apart(pos.z, p.z) <= 2 * (w * pow2(x)),
    ensures
        ({
            let distance = distance_to_center(pos, p);
            &&& distance.finite()
            &&& distance.units() <= 2 * (w * pow2(x))
        }),
{
    let center = p.centered();
    let dx = pos.x.minus(center.x);
    let dy = pos.y.minus(center.y);
    let dz = pos.z.minus(center.z);
    let y = (2 * x - 1074) as nat;
    let q = w * w;
    assert(q <= 0x1ff_ffff * 0x1ff_ffff) by (nonlinear_arith)
        requires
            q == w * w,
            0 <= w <= 0x1ff_ffff,
    ;
    lemma_small_power(w, x);
    lemma_small_power(2 * w, x);
    lemma_difference_bounds(pos.x, p.x, w, x);
    lemma_difference_bounds(pos.y, p.y, w, x);
    lemma_difference_bounds(pos.z, p.z, w, x);
    lemma_square_power(q, y);
    lemma_square_at_most(dx, w, x);
    lemma_square_at_most(dy, w, x);
    lemma_square_at_most(dz, w, x);
    let sum = dx.times(dx).plus(dy.times(dy));
    lemma_sum_at_most(dx.times(dx), q, dy.times(dy), q, y);
    lemma_sum_at_most(sum, q + q, dz.times(dz), q, y);
    let n = sum.plus(dz.times(dz));
    lemma_abs_units_order(n, n);
    let u = n.abs_units();
    let s = (2 * w) * pow2(x);
    assert(s == 2 * (w * pow2(x))) by (nonlinear_arith)
        requires
            s == (2 * w) * pow2(x),
    ;
    lemma_short_square(2 * w, x);
    assert(((2 * w) * (2 * w)) == 4 * q) by (nonlinear_arith)
        requires
            q == w * w,
    ;
    assert(u * pow2(1074) <= s * s) by (nonlinear_arith)
        requires
            s * s == ((4 * q) * pow2(y)) * pow2(1074),
            u <= (q + q + q) * pow2(y),
    ;
    root_keeps_bound(u * pow2(1074), 2 * w, x);
    lemma2_to64();
    assert((0 * pow2(0)) * (0 * pow2(0)) == 0) by (nonlinear_arith);
    assert(u * pow2(1074) >= 0);
    root_keeps_order(u * pow2(1074), 0, 0);
}

proof fn lemma_small_power(w: nat, x: nat)
    requires
        w <= 0x3ff_ffff,
        x <= 1100,
    ensures
        w * pow2(x) < pow2(2098),
{
    lemma2_to64();
    lemma_pow2_adds(26, x);
    lemma_pow2_pos(x);
    lemma_pow2_strictly_increases((26 + x) as nat, 2098);
    assert(w * pow2(x) < pow2((26 + x) as nat)) by (nonlinear_arith)
        requires
            w < pow2(26),
            pow2((26 + x) as nat) == pow2(26) * pow2(x),
            pow2(x) > 0,
    ;
}

proof fn lemma_square_power(q: nat, y: nat)
    requires
        q <= 0x1ff_ffff * 0x1ff_ffff,
        y <= 1126,
    ensures
        q * pow2(y) < pow2(2098),
        (q + q) * pow2(y) < pow2(2098),
        (q + q + q) * pow2(y) < pow2(2098),
        q + q + q < 2 * HIDDEN_BIT,
{
    lemma2_to64();
    lemma2_to64_rest();
    lemma_pow2_adds(53, y);
    lemma_pow2_pos(y);
    lemma_pow2_strictly_increases((53 + y) as nat, 2098);
    let p = pow2(y);
    assert(q * p <= (q + q + q) * p && (q + q) * p <= (q + q + q) * p && (q + q + q) * p < pow2(53)
        * p) by (nonlinear_arith)
        requires
            q + q + q < pow2(53),
            q >= 0,
            p > 0,
    ;
}

proof fn lemma_square_at_most(d: Binary64, w: nat, x: nat)
    requires
        d.finite(),
        d.abs_units() <= w * pow2(x),
        w <= 0x1ff_ffff,
        x >= 537,
        (w * w) * pow2((2 * x - 1074) as nat) < pow2(2098),
    ensures
        at_most_units(d.times(d), (w * w) * pow2((2 * x - 1074) as nat)),
{
    let s = w * pow2(x);
    let u = d.abs_units();
    lemma_pow2_pos(1074);
    lemma_short_square(w, x);
    assert(w * w <= 0x1ff_ffff * 0x1ff_ffff) by (nonlinear_arith)
        requires
            0 <= w <= 0x1ff_ffff,
    ;
    assert(u * u <= s * s) by (nonlinear_arith)
        requires
            u <= s,
            u >= 0,
    ;
    lemma_rounded_at_most(u * u, pow2(1074), w * w, (2 * x - 1074) as nat);
}

} // verus!
