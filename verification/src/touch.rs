//! The points that are taken along a way, against the ray itself.
use vstd::arithmetic::div_mod::*;
use vstd::arithmetic::power2::*;
use vstd::prelude::*;

use crate::binary64::arithmetic::lemma_abs_units_order;
use crate::binary64::laws::{
    finite_units_bounded, integer_has_units, rounded_number_has_units, rounding_error_is_small,
    rounding_keeps_order, rounding_keeps_short_counts,
};
use crate::binary64::root::{root_keeps_bound, root_keeps_order, roots_are_close};
use crate::binary64::{round_root, round_units, Binary64, HIDDEN_BIT};
use crate::distance::distance_to_center;
use crate::position::BlockPos;
use crate::ray::{passes_through, point_inside};
use crate::reach::lemma_center_units;
use crate::sampling::{
    block_on_way, coordinate_on_way, lemma_part, lemma_share, lemma_short_is_exact,
    lemma_way_units, parts_of_way, sampled, way, way_length,
};

verus! {

/// Along one axis, the point after `n / d` of the way lies inside the layer of
/// blocks at `c`, or on its border.
pub open spec fn touches_layer(a: int, b: int, c: int, n: int, d: int) -> bool {
    2 * c * d <= (2 * a + 1) * d + 2 * (b - a) * n <= 2 * (c + 1) * d
}

/// The point after `n / d` of the way lies inside the block `p`, or on its border.
pub open spec fn point_touching(from: BlockPos, to: BlockPos, p: BlockPos, n: int, d: int) -> bool {
    &&& 0 < n < d
    &&& touches_layer(from.x as int, to.x as int, p.x as int, n, d)
    &&& touches_layer(from.y as int, to.y as int, p.y as int, n, d)
    &&& touches_layer(from.z as int, to.z as int, p.z as int, n, d)
}

/// The ray between the centers of two blocks passes through `p`, or touches it.
pub open spec fn touches(from: BlockPos, to: BlockPos, p: BlockPos) -> bool {
    exists|n: int, d: int| #[trigger] point_touching(from, to, p, n, d)
}

/// Two coordinates within the limits of a world, and of one neighborhood.
pub open spec fn near_on_axis(a: i32, b: i32) -> bool {
    &&& -0x200_0000 <= a <= 0x200_0000
    &&& -0x200_0000 <= b <= 0x200_0000
    &&& -1024 <= b - a <= 1024
}

/// Two blocks of one neighborhood, within the limits of a world.
pub open spec fn near(from: BlockPos, to: BlockPos) -> bool {
    &&& near_on_axis(from.x, to.x)
    &&& near_on_axis(from.y, to.y)
    &&& near_on_axis(from.z, to.z)
}

/// The square of a whole number of blocks is exact.
proof fn lemma_square_is_exact(d: Binary64, l: nat)
    requires
        d.finite(),
        l <= 1024,
        d.abs_units() == l * pow2(1074),
    ensures
        d.times(d).finite(),
        !d.times(d).negative(),
        d.times(d).abs_units() == (l * l) * pow2(1074),
        l * l <= 0x10_0000,
{
    let u = pow2(1074);
    lemma_pow2_pos(1074);
    assert(l * l <= 0x10_0000) by (nonlinear_arith)
        requires
            0 <= l <= 1024,
    ;
    assert((l * u) * (l * u) == ((l * l) * u) * u) by (nonlinear_arith);
    rounding_keeps_short_counts(l * l, 1074, u);
    lemma_short_is_exact(false, l * l);
}

/// A sum of whole numbers of blocks is exact.
proof fn lemma_sum_is_exact(a: Binary64, v: nat, b: Binary64, w: nat)
    requires
        a.finite(),
        b.finite(),
        !a.negative(),
        !b.negative(),
        a.abs_units() == v * pow2(1074),
        b.abs_units() == w * pow2(1074),
        v + w <= 0xffff_ffff,
    ensures
        a.plus(b).finite(),
        !a.plus(b).negative(),
        a.plus(b).abs_units() == (v + w) * pow2(1074),
{
    let u = pow2(1074);
    assert(v * u + w * u == (v + w) * u) by (nonlinear_arith);
    lemma_short_is_exact(false, v + w);
    if a.units() + b.units() == 0 {
        lemma_short_is_exact(false, 0);
        assert(0 * u == 0);
    }
}

/// The square of the distance between the centers of two blocks.
pub open spec fn square_distance(from: BlockPos, to: BlockPos) -> int {
    let (x, y, z) = (to.x - from.x, to.y - from.y, to.z - from.z);
    x * x + y * y + z * z
}

/// In a neighborhood, the length of a way is the rounded root of an exact number.
proof fn lemma_length(from: BlockPos, to: BlockPos)
    requires
        near(from, to),
        from != to,
    ensures
        1 <= square_distance(from, to) <= 0x30_0000,
        way_length(from, to) == Binary64::of_units(
            false,
            round_root((square_distance(from, to) as nat * pow2(1074)) * pow2(1074)),
        ),
{
    let u = pow2(1074);
    let d = way(from, to);
    lemma_pow2_pos(1074);
    lemma_way_units(from.x, to.x);
    lemma_way_units(from.y, to.y);
    lemma_way_units(from.z, to.z);
    let lx = lemma_way_length(d.x, to.x - from.x);
    let ly = lemma_way_length(d.y, to.y - from.y);
    let lz = lemma_way_length(d.z, to.z - from.z);
    lemma_square_is_exact(d.x, lx);
    lemma_square_is_exact(d.y, ly);
    lemma_square_is_exact(d.z, lz);
    lemma_square_of(lx as int, to.x - from.x);
    lemma_square_of(ly as int, to.y - from.y);
    lemma_square_of(lz as int, to.z - from.z);
    let (x, y, z) = (d.x.times(d.x), d.y.times(d.y), d.z.times(d.z));
    lemma_sum_is_exact(x, lx * lx, y, ly * ly);
    lemma_sum_is_exact(x.plus(y), lx * lx + ly * ly, z, lz * lz);
    let n = x.plus(y).plus(z);
    let s = square_distance(from, to) as nat;
    lemma_abs_units_order(n, n);
    assert(s * u > 0) by (nonlinear_arith)
        requires
            s >= 1,
            u > 0,
    ;
}

/// Squares forget signs.
proof fn lemma_square_of(l: int, k: int)
    requires
        l == k || l == -k,
    ensures
        l * l == k * k,
        k != 0 ==> k * k >= 1,
        k * k >= 0,
{
    assert((-k) * (-k) == k * k) by (nonlinear_arith);
    assert(k != 0 ==> k * k >= 1) by (nonlinear_arith);
    assert(k * k >= 0) by (nonlinear_arith);
}

/// Twice a length of at most `v` half blocks is at most `v` blocks.
proof fn lemma_twice_at_most(length: Binary64, v: nat)
    requires
        length.finite(),
        !length.negative(),
        v <= 4096,
        length.abs_units() <= v * pow2(1073),
    ensures
        length.times(Binary64::of_integer(2)).finite(),
        !length.times(Binary64::of_integer(2)).negative(),
        length.times(Binary64::of_integer(2)).ceil() <= v,
{
    let u = pow2(1074);
    let h = pow2(1073);
    let c = length.abs_units();
    lemma_pow2_pos(1074);
    lemma_pow2_unfold(1074);
    integer_has_units(2);
    assert(c * (2 * u) <= (v * u) * u) by (nonlinear_arith)
        requires
            c <= v * h,
            u == 2 * h,
            u > 0,
    ;
    rounding_keeps_short_counts(v, 1074, u);
    rounding_keeps_order(c * (2 * u), (v * u) * u, u, HIDDEN_BIT as nat);
    rounded_number_has_units(false, c * (2 * u), u);
    lemma_short_is_exact(false, v);
    finite_units_bounded(Binary64::of_units(false, v * u));
    let t = length.times(Binary64::of_integer(2)).units();
    lemma_div_is_ordered(-(v * u), -t, u as int);
    assert(-(v * u) == u * (-(v as int))) by (nonlinear_arith);
    lemma_div_multiples_vanish(-(v as int), u as int);
}

/// A way whose square is at most that of `v` half blocks is cut into at most `v`
/// parts.
proof fn lemma_parts_at_most(from: BlockPos, to: BlockPos, v: nat)
    requires
        near(from, to),
        from != to,
        1 <= v <= 4096,
        4 * square_distance(from, to) <= v * v,
    ensures
        way_length(from, to).finite(),
        !way_length(from, to).negative(),
        way_length(from, to).times(Binary64::of_integer(2)).finite(),
        !way_length(from, to).times(Binary64::of_integer(2)).negative(),
        parts_of_way(from, to) <= v,
{
    let u = pow2(1074);
    let h = pow2(1073);
    let s = square_distance(from, to) as nat;
    let n = (s * u) * u;
    let length = way_length(from, to);
    lemma_length(from, to);
    lemma_pow2_pos(1073);
    lemma_pow2_unfold(1074);
    assert(n <= (v * h) * (v * h)) by (nonlinear_arith)
        requires
            n == (s * u) * u,
            4 * s <= v * v,
            u == 2 * h,
    {
        assert((s * u) * u == (4 * s) * (h * h));
        assert((v * h) * (v * h) == (v * v) * (h * h));
    }
    root_keeps_bound(n, v, 1073);
    lemma2_to64();
    assert((0 * pow2(0)) * (0 * pow2(0)) == 0) by (nonlinear_arith);
    root_keeps_order(n, 0, 0);
    assert(v * h <= v * u) by (nonlinear_arith)
        requires
            u == 2 * h,
            h > 0,
    ;
    lemma_short_is_exact(false, v);
    finite_units_bounded(Binary64::of_units(false, v * u));
    lemma_twice_at_most(length, v);
}

/// A way whose square is more than that of `v` half blocks is cut into more than
/// `v` parts.
proof fn lemma_parts_more_than(from: BlockPos, to: BlockPos, v: nat)
    requires
        near(from, to),
        from != to,
        v <= 4096,
        v * v < 4 * square_distance(from, to),
    ensures
        parts_of_way(from, to) > v,
{
    let u = pow2(1074);
    let g = pow2(1054);
    let s = square_distance(from, to) as nat;
    let n = (s * u) * u;
    let length = way_length(from, to);
    let twice = length.times(Binary64::of_integer(2));
    lemma_length(from, to);
    lemma_parts_at_most(from, to, 4096);
    lemma2_to64();
    lemma_pow2_adds(20, 1054);
    lemma_pow2_pos(1054);
    lemma_pow2_unfold(1055);
    // A count that is a little above `v` half blocks.
    let k = v * 0x8_0000 + 1;
    assert(k * k <= s * 0x100_0000_0000) by (nonlinear_arith)
        requires
            k == v * 0x8_0000 + 1,
            v * v + 1 <= 4 * s,
            0 <= v <= 4096,
    {
        assert(k * k == (v * v) * 0x40_0000_0000 + v * 0x10_0000 + 1);
    }
    assert((k * g) * (k * g) <= n) by (nonlinear_arith)
        requires
            n == (s * u) * u,
            u == 0x10_0000 * g,
            k * k <= s * 0x100_0000_0000,
    {
        assert((k * g) * (k * g) == (k * k) * (g * g));
        assert((s * u) * u == (s * 0x100_0000_0000) * (g * g));
    }
    root_keeps_order(n, k, 1054);
    let c = length.abs_units();
    let f = pow2(1055);
    assert(c * (2 * u) >= (k * f) * u) by (nonlinear_arith)
        requires
            c >= k * g,
            f == 2 * g,
            u > 0,
    ;
    integer_has_units(2);
    rounding_keeps_short_counts(k, 1055, u);
    rounding_keeps_order((k * f) * u, c * (2 * u), u, HIDDEN_BIT as nat);
    rounded_number_has_units(false, c * (2 * u), u);
    let t = twice.units();
    assert(t > v * u) by (nonlinear_arith)
        requires
            t >= k * f,
            k == v * 0x8_0000 + 1,
            f == 2 * g,
            u == 0x10_0000 * g,
            g > 0,
    ;
    let q = (-t) / (u as int);
    lemma_fundamental_div_mod(-t, u as int);
    lemma_mod_bound(-t, u as int);
    let rest = (-t) % (u as int);
    assert(q < -(v as int)) by (nonlinear_arith)
        requires
            -t == u * q + rest,
            rest >= 0,
            t > v * u,
            u > 0,
    ;
    // The way is long enough to be cut.
    assert((1 * u) * (1 * u) <= n) by (nonlinear_arith)
        requires
            n == (s * u) * u,
            s >= 1,
            u > 0,
    ;
    root_keeps_order(n, 1, 1074);
    rounding_keeps_short_counts(1, 1022, 1);
    assert((1 * pow2(1022)) * 1 == 1 * pow2(1022));
    rounded_number_has_units(false, 1 * pow2(1022), 1);
    lemma_pow2_strictly_increases(1022, 1074);
    lemma_pow2_strictly_increases(1022, 2098);
}

/// In a neighborhood, a way is cut into the least number of parts that are no
/// longer than half a block.
pub proof fn way_is_cut_every_half_block(from: BlockPos, to: BlockPos)
    requires
        near(from, to),
        from != to,
    ensures
        ({
            let parts = parts_of_way(from, to);
            &&& 1 <= parts <= 4096
            &&& 4 * square_distance(from, to) <= parts * parts
            &&& (parts - 1) * (parts - 1) < 4 * square_distance(from, to)
        }),
{
    let parts = parts_of_way(from, to);
    lemma_length(from, to);
    lemma_parts_at_most(from, to, 4096);
    if parts * parts < 4 * square_distance(from, to) {
        lemma_parts_more_than(from, to, parts as nat);
    }
    if (parts - 1) * (parts - 1) >= 4 * square_distance(from, to) {
        assert(parts - 1 >= 1) by (nonlinear_arith)
            requires
                (parts - 1) * (parts - 1) >= 4,
                parts >= 1,
        ;
        lemma_parts_at_most(from, to, (parts - 1) as nat);
    }
}

/// The length of a way along one axis.
proof fn lemma_way_length(d: Binary64, k: int) -> (l: nat)
    requires
        d.units() == k * pow2(1074),
        -1024 <= k <= 1024,
    ensures
        l == k || l == -k,
        l <= 1024,
        d.abs_units() == l * pow2(1074),
{
    lemma_pow2_pos(1074);
    let l: nat = if k >= 0 {
        k as nat
    } else {
        (-k) as nat
    };
    assert(d.abs_units() == l * pow2(1074)) by (nonlinear_arith)
        requires
            d.units() == k * pow2(1074),
            d.units() == d.abs_units() || d.units() == -(d.abs_units() as int),
            l == k || l == -k,
            pow2(1074) > 0,
    ;
    l
}

/// A unit, in `2^53` of which a number of blocks is rounded.
spec fn step() -> int {
    pow2(1021) as int
}

/// One block is `2^53` steps.
proof fn lemma_steps()
    ensures
        pow2(1074) == 2 * HIDDEN_BIT * step(),
        step() >= 1,
{
    lemma2_to64();
    lemma2_to64_rest();
    lemma_pow2_adds(53, 1021);
    lemma_pow2_pos(1021);
}

/// How much a share is rounded.
proof fn lemma_share_error(i: int, parts: int)
    requires
        1 <= i < parts <= i32::MAX,
    ensures
        ({
            let t = Binary64::of_integer(i).over(Binary64::of_integer(parts)).abs_units();
            -(2 * parts * step()) <= t * parts - i * pow2(1074) <= 2 * parts * step()
        }),
{
    let u = pow2(1074) as int;
    let w = step();
    let p = 2 * HIDDEN_BIT as int;
    let t = Binary64::of_integer(i).over(Binary64::of_integer(parts)).abs_units() as int;
    lemma_steps();
    lemma_pow2_pos(1074);
    lemma_share(i, parts);
    let num = (i * u) * u;
    let den = parts * u;
    assert(den > 0 && num >= 0) by (nonlinear_arith)
        requires
            den == parts * u,
            num == (i * u) * u,
            parts > 0,
            i > 0,
            u > 0,
    ;
    rounding_error_is_small(num as nat, den as nat);
    let e = t * parts - i * u;
    assert(t * den - num == u * e) by (nonlinear_arith)
        requires
            den == parts * u,
            num == (i * u) * u,
            e == t * parts - i * u,
    ;
    assert(p * (num - t * den) == -(p * (u * e))) by (nonlinear_arith)
        requires
            t * den - num == u * e,
    ;
    assert(p * e <= i * u + p * parts && -(p * e) <= i * u + p * parts) by (nonlinear_arith)
        requires
            p * (u * e) <= num + p * den,
            -(p * (u * e)) <= num + p * den,
            num == (i * u) * u,
            den == parts * u,
            u > 0,
    {
        assert(p * (u * e) == u * (p * e));
        assert(num + p * den == u * (i * u + p * parts));
    }
    assert(e <= 2 * parts * w && -e <= 2 * parts * w) by (nonlinear_arith)
        requires
            p * e <= i * u + p * parts,
            -(p * e) <= i * u + p * parts,
            u == p * w,
            w >= 1,
            0 < i <= parts,
            p > 0,
    {
        assert(i * u == p * (i * w));
        assert(i * w <= parts * w);
        assert(parts <= parts * w);
        assert(p * e <= p * (i * w + parts));
        assert(-(p * e) <= p * (i * w + parts));
    }
}

/// How much a part of the way is rounded.
proof fn lemma_part_error(d: Binary64, k: int, t: Binary64)
    requires
        d.finite(),
        -1024 <= k <= 1024,
        d.units() == k * pow2(1074),
        t.finite(),
        !t.negative(),
        t.abs_units() <= pow2(1074),
    ensures
        d.times(t).finite(),
        -(1025 * step()) <= d.times(t).units() - k * t.abs_units() <= 1025 * step(),
{
    let u = pow2(1074) as int;
    let w = step();
    let p = 2 * HIDDEN_BIT as int;
    let l = lemma_way_length(d, k) as int;
    let s = t.abs_units() as int;
    lemma_steps();
    lemma_pow2_pos(1074);
    lemma_part(d, l as nat, t);
    let num = (l * u) * s;
    assert(num >= 0) by (nonlinear_arith)
        requires
            num == (l * u) * s,
            l >= 0,
            u > 0,
            s >= 0,
    ;
    rounded_number_has_units(d.negative(), num as nat, u as nat);
    rounding_error_is_small(num as nat, u as nat);
    let m = d.times(t).abs_units() as int;
    let e = m - l * s;
    assert(m * u - num == u * e) by (nonlinear_arith)
        requires
            num == (l * u) * s,
            e == m - l * s,
    ;
    assert(p * (num - m * u) == -(p * (u * e))) by (nonlinear_arith)
        requires
            m * u - num == u * e,
    ;
    assert(p * e <= l * s + p && -(p * e) <= l * s + p) by (nonlinear_arith)
        requires
            p * (u * e) <= num + p * u,
            -(p * (u * e)) <= num + p * u,
            num == (l * u) * s,
            u > 0,
    {
        assert(p * (u * e) == u * (p * e));
        assert(num + p * u == u * (l * s + p));
    }
    assert(l * s <= 1024 * (p * w)) by (nonlinear_arith)
        requires
            0 <= l <= 1024,
            0 <= s <= u,
            u == p * w,
    ;
    assert(e <= 1025 * w && -e <= 1025 * w) by (nonlinear_arith)
        requires
            p * e <= 1024 * (p * w) + p,
            -(p * e) <= 1024 * (p * w) + p,
            w >= 1,
            p > 0,
    ;
    // The sign of the way is that of its part.
    if k > 0 {
        assert(d.units() > 0) by (nonlinear_arith)
            requires
                d.units() == k * u,
                k > 0,
                u > 0,
        ;
    } else if k < 0 {
        assert(d.units() < 0) by (nonlinear_arith)
            requires
                d.units() == k * u,
                k < 0,
                u > 0,
        ;
        assert(k * s == -(l * s)) by (nonlinear_arith)
            requires
                l == -k,
        ;
    } else {
        assert(l * s == 0 && k * s == 0) by (nonlinear_arith)
            requires
                l == 0,
                k == 0,
        ;
    }
}

/// How much a coordinate within the limits of a world is rounded.
proof fn lemma_coordinate_error(s: Binary64, m: Binary64)
    requires
        s.finite(),
        m.finite(),
        -(0x400_0000 * pow2(1074)) <= s.units() + m.units() <= 0x400_0000 * pow2(1074),
    ensures
        s.plus(m).finite(),
        -(0x400_0001 * step()) <= s.plus(m).units() - (s.units() + m.units()) <= 0x400_0001
            * step(),
{
    let u = pow2(1074) as int;
    let w = step();
    let p = 2 * HIDDEN_BIT as int;
    let sum = s.units() + m.units();
    let size: nat = if sum < 0 {
        (-sum) as nat
    } else {
        sum as nat
    };
    lemma_steps();
    lemma_pow2_pos(1074);
    lemma_short_is_exact(false, 0x400_0000);
    rounding_keeps_order(size, 0x400_0000 * pow2(1074), 1, HIDDEN_BIT as nat);
    finite_units_bounded(Binary64::of_units(false, 0x400_0000 * pow2(1074)));
    rounded_number_has_units(sum < 0, size, 1);
    rounding_error_is_small(size, 1);
    let r = round_units(size, 1, HIDDEN_BIT as nat) as int;
    let e = r - size;
    assert(e <= 0x400_0001 * w && -e <= 0x400_0001 * w) by (nonlinear_arith)
        requires
            p * e <= size + p * 1,
            p * (-e) <= size + p * 1,
            size <= 0x400_0000 * u,
            u == p * w,
            w >= 1,
            p > 0,
    {
        assert(0x400_0000 * u == p * (0x400_0000 * w));
        assert(p * (0x400_0000 * w) + p <= p * (0x400_0001 * w));
    }
    if sum == 0 {
        lemma_short_is_exact(s.negative() && m.negative(), 0);
        assert(0 * u == 0);
    }
}

/// A coordinate is touched by the ray at the point to which it belongs.
proof fn lemma_coordinate_touches(a: i32, b: i32, i: int, parts: int)
    requires
        near_on_axis(a, b),
        1 <= i < parts <= 4096,
    ensures
        touches_layer(
            a as int,
            b as int,
            coordinate_on_way(
                BlockPos::center_of(a as int),
                BlockPos::center_of(b as int).minus(BlockPos::center_of(a as int)),
                i,
                parts,
            ) as int,
            i,
            parts,
        ),
{
    let s = BlockPos::center_of(a as int);
    let d = BlockPos::center_of(b as int).minus(s);
    let t = Binary64::of_integer(i).over(Binary64::of_integer(parts));
    let k = b - a;
    let u = pow2(1074) as int;
    let h = pow2(1073) as int;
    let w = step();
    lemma_steps();
    lemma_pow2_pos(1073);
    lemma_pow2_unfold(1074);
    lemma_center_units(a);
    lemma_way_units(a, b);
    lemma_share(i, parts);
    lemma_share_error(i, parts);
    lemma_part_error(d, k, t);
    let m = d.times(t);
    let l = lemma_way_length(d, k);
    lemma_part(d, l, t);
    let sum = s.units() + m.units();
    assert(l * u <= 1024 * u) by (nonlinear_arith)
        requires
            l <= 1024,
            u > 0,
    ;
    assert(-(0x400_0000 * u) <= sum <= 0x400_0000 * u) by (nonlinear_arith)
        requires
            sum == (2 * a + 1) * h + m.units(),
            -(1024 * u) <= m.units() <= 1024 * u,
            u == 2 * h,
            h > 0,
            -0x200_0000 <= a <= 0x200_0000,
    ;
    lemma_coordinate_error(s, m);
    let r = s.plus(m).units();
    let share = t.abs_units() as int;
    // The point is off by far less than the distance from the exact one to the
    // nearest border on which it does not lie.
    let off_sum = r - sum;
    let off_part = m.units() - k * share;
    let off_share = share * parts - i * u;
    let n = (2 * a + 1) * parts + 2 * k * i;
    let off = r * parts - n * h;
    let v = m.units();
    let c = 2 * a + 1;
    assert(r * parts == off_sum * parts + sum * parts) by (nonlinear_arith)
        requires
            off_sum == r - sum,
    ;
    assert(sum * parts == (c * h) * parts + v * parts) by (nonlinear_arith)
        requires
            sum == c * h + v,
    ;
    assert(v * parts == off_part * parts + (k * share) * parts) by (nonlinear_arith)
        requires
            off_part == v - k * share,
    ;
    assert((k * share) * parts == k * off_share + k * (i * u)) by (nonlinear_arith)
        requires
            off_share == share * parts - i * u,
    ;
    assert(n * h == (c * h) * parts + k * (i * u)) by (nonlinear_arith)
        requires
            n == c * parts + 2 * k * i,
            u == 2 * h,
    ;
    lemma_scaled(off_sum, 0x400_0001 * w, parts, 4096);
    lemma_scaled(off_part, 1025 * w, parts, 4096);
    assert(2 * parts * w <= 8192 * w) by (nonlinear_arith)
        requires
            parts <= 4096,
            w >= 1,
    ;
    lemma_scaled_signed(off_share, 8192 * w, k, 1024);
    lemma2_to64();
    lemma_pow2_adds(52, 1021);
    lemma2_to64_rest();
    assert(-h < off < h);
    let q = r / u;
    lemma_fundamental_div_mod(r, u);
    lemma_mod_bound(r, u);
    let rest = r % u;
    assert(0x400_0001 * w < 0x10_0000_0000_0000 * w) by (nonlinear_arith)
        requires
            w >= 1,
    ;
    assert(-0x400_0001 <= q <= 0x400_0001) by (nonlinear_arith)
        requires
            r == u * q + rest,
            0 <= rest < u,
            -(0x400_0000 * u) - h <= r <= 0x400_0000 * u + h,
            u == 2 * h,
            h > 0,
    ;
    assert(2 * q * parts <= n) by (nonlinear_arith)
        requires
            r == u * q + rest,
            rest >= 0,
            off == r * parts - n * h,
            off < h,
            u == 2 * h,
            h > 0,
            parts > 0,
    {
        assert(r * parts >= (u * q) * parts);
        assert((u * q) * parts == h * (2 * q * parts));
        assert(h * (2 * q * parts) < h * (n + 1));
    }
    assert(n <= 2 * (q + 1) * parts) by (nonlinear_arith)
        requires
            r == u * q + rest,
            rest < u,
            off == r * parts - n * h,
            -h < off,
            u == 2 * h,
            h > 0,
            parts > 0,
    {
        assert(r * parts < (u * q + u) * parts);
        assert((u * q + u) * parts == h * (2 * (q + 1) * parts));
        assert(h * (n - 1) < h * (2 * (q + 1) * parts));
    }
}

/// A bound of a product.
proof fn lemma_scaled(v: int, bound: int, f: int, most: int)
    requires
        -bound <= v <= bound,
        0 <= f <= most,
    ensures
        -(bound * most) <= v * f <= bound * most,
{
    assert(-(bound * most) <= v * f <= bound * most) by (nonlinear_arith)
        requires
            -bound <= v <= bound,
            0 <= f <= most,
    {
        assert(v * f <= bound * f);
        assert(-(bound * f) <= v * f);
        assert(bound * f <= bound * most);
    }
}

proof fn lemma_scaled_signed(v: int, bound: int, f: int, most: int)
    requires
        -bound <= v <= bound,
        -most <= f <= most,
    ensures
        -(bound * most) <= f * v <= bound * most,
{
    if f >= 0 {
        lemma_scaled(v, bound, f, most);
        assert(f * v == v * f) by (nonlinear_arith);
    } else {
        lemma_scaled(v, bound, -f, most);
        assert(f * v == -(v * (-f))) by (nonlinear_arith);
    }
}

/// In a neighborhood, the ray touches the block in which the `i`-th part of the way
/// ends, after `i / parts` of the way.
pub proof fn sample_touches_the_ray_in_its_place(from: BlockPos, to: BlockPos, i: int)
    requires
        near(from, to),
        1 <= i < parts_of_way(from, to),
    ensures
        point_touching(from, to, block_on_way(from, to, i), i, parts_of_way(from, to)),
{
    let parts = parts_of_way(from, to);
    way_is_cut_every_half_block(from, to);
    lemma_coordinate_touches(from.x, to.x, i, parts);
    lemma_coordinate_touches(from.y, to.y, i, parts);
    lemma_coordinate_touches(from.z, to.z, i, parts);
}

/// In a neighborhood, the points that are taken along a way do not stray from it:
/// the ray touches each block into which one falls.
pub proof fn samples_touch_the_ray(from: BlockPos, to: BlockPos, p: BlockPos)
    requires
        near(from, to),
        sampled(from, to, p),
    ensures
        touches(from, to, p),
{
    let parts = parts_of_way(from, to);
    let i = choose|i: int| 1 <= i < parts && #[trigger] block_on_way(from, to, i) == p;
    sample_touches_the_ray_in_its_place(from, to, i);
}

/// A block that the ray passes through is touched by it.
pub proof fn passing_is_touching(from: BlockPos, to: BlockPos, p: BlockPos)
    requires
        passes_through(from, to, p),
    ensures
        touches(from, to, p),
{
    let (n, d) = choose|n: int, d: int| #[trigger] point_inside(from, to, p, n, d);
    assert(point_touching(from, to, p, n, d));
}

/// In a neighborhood, the distance from the center of one block to another block is the
/// root of the exact square of the distance, rounded once: of the integer part `f` of the
/// root, counted in units, it is off by at most one part in `2^52`, and a unit.
pub proof fn distance_between_blocks_is_euclidean(from: BlockPos, to: BlockPos, f: nat)
    requires
        near(from, to),
        from != to,
        f * f <= (square_distance(from, to) * pow2(1074)) * pow2(1074) < (f + 1) * (f + 1),
    ensures
        ({
            let distance = distance_to_center(to.centered(), from);
            let h = HIDDEN_BIT as int;
            &&& distance.finite()
            &&& !distance.negative()
            &&& h * distance.abs_units() <= (h + 1) * f + h
            &&& (h - 1) * f <= h * distance.abs_units()
        }),
{
    let s = square_distance(from, to) as nat;
    let u = pow2(1074);
    lemma_length(from, to);
    assert(distance_to_center(to.centered(), from) == way_length(from, to));
    assert(4 * s <= 4096 * 4096);
    lemma_parts_at_most(from, to, 4096);
    let n = (s * u) * u;
    roots_are_close(n, f);
    lemma2_to64();
    assert((0 * pow2(0)) * (0 * pow2(0)) == 0) by (nonlinear_arith);
    root_keeps_order(n, 0, 0);
}

/// A block is at no distance from its own center.
pub proof fn blocks_are_at_their_own_center(p: BlockPos)
    ensures
        distance_to_center(p.centered(), p).finite(),
        distance_to_center(p.centered(), p).units() == 0,
{
    let d = way(p, p);
    lemma_way_units(p.x, p.x);
    lemma_way_units(p.y, p.y);
    lemma_way_units(p.z, p.z);
    assert(0 * pow2(1074) == 0);
    lemma_square_is_exact(d.x, 0);
    lemma_square_is_exact(d.y, 0);
    lemma_square_is_exact(d.z, 0);
    let (x, y, z) = (d.x.times(d.x), d.y.times(d.y), d.z.times(d.z));
    lemma_sum_is_exact(x, 0, y, 0);
    lemma_sum_is_exact(x.plus(y), 0, z, 0);
    let n = x.plus(y).plus(z);
    lemma_abs_units_order(n, n);
    assert(distance_to_center(p.centered(), p) == n.root());
}

} // verus!
