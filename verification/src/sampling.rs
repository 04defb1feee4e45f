//! Points that are taken along the way of a vibration, two for each block of its
//! length.
use vstd::arithmetic::div_mod::*;
use vstd::arithmetic::power2::*;
use vstd::prelude::*;

use crate::binary64::arithmetic::lemma_abs_units_order;
use crate::binary64::laws::{
    finite_units_bounded, integer_has_units, rounded_number_has_units, rounding_keeps_order,
    rounding_keeps_short_counts,
};
use crate::binary64::{round_units, Binary64, HIDDEN_BIT};
use crate::block::Block;
use crate::occlusion::{let_through, stopped};
use crate::position::{BlockPos, Vector3};
use crate::ray::between;
use crate::reach::lemma_center_units;

verus! {

/// The straight way from the center of one block to that of another.
pub open spec fn way(from: BlockPos, to: BlockPos) -> Vector3 {
    let start = from.centered();
    let end = to.centered();
    Vector3 {
        x: end.x.minus(start.x),
        y: end.y.minus(start.y),
        z: end.z.minus(start.z),
    }
}

/// Its length.
pub open spec fn way_length(from: BlockPos, to: BlockPos) -> Binary64 {
    let d = way(from, to);
    d.x.times(d.x).plus(d.y.times(d.y)).plus(d.z.times(d.z)).root()
}

/// The least length that counts: `2^-52`.
pub open spec fn least_length() -> Binary64 {
    Binary64::of_scaled(1, 1022)
}

/// Into how many parts the way is cut: two for each block of its length. No
/// way at all is not cut.
pub open spec fn parts_of_way(from: BlockPos, to: BlockPos) -> int {
    if from == to || least_length().above(way_length(from, to)) {
        1
    } else {
        way_length(from, to).times(Binary64::of_integer(2)).ceil_within(i32::MAX as int)
    }
}

/// The coordinate after `i` of `parts` parts of a way of `d` from `start`, rounded
/// down.
pub open spec fn coordinate_on_way(start: Binary64, d: Binary64, i: int, parts: int) -> i32 {
    let t = Binary64::of_integer(i).over(Binary64::of_integer(parts));
    start.plus(d.times(t)).floor_i32() as i32
}

/// The block in which the `i`-th part of the way ends.
pub open spec fn block_on_way(from: BlockPos, to: BlockPos, i: int) -> BlockPos {
    let start = from.centered();
    let d = way(from, to);
    let parts = parts_of_way(from, to);
    BlockPos {
        x: coordinate_on_way(start.x, d.x, i, parts),
        y: coordinate_on_way(start.y, d.y, i, parts),
        z: coordinate_on_way(start.z, d.z, i, parts),
    }
}

/// Some part of the way ends in the block `p`.
pub open spec fn sampled(from: BlockPos, to: BlockPos, p: BlockPos) -> bool {
    exists|i: int| 1 <= i < parts_of_way(from, to) && #[trigger] block_on_way(from, to, i) == p
}

/// The number of parts of the way.
fn count_parts(from: BlockPos, to: BlockPos, d: Vector3) -> (r: i32)
    requires
        d == way(from, to),
    ensures
        r == parts_of_way(from, to),
        r >= 1,
{
    let length = d.x.multiply(d.x).add_to(d.y.multiply(d.y)).add_to(
        d.z.multiply(d.z),
    ).square_root();
    if from == to || Binary64::from_scaled(1, 1022).is_above(length) {
        return 1;
    }
    length.multiply(Binary64::from_integer(2)).to_ceil_within(0x7fff_ffff) as i32
}

fn step_coordinate(start: Binary64, d: Binary64, t: Binary64) -> (r: i32)
    ensures
        r == start.plus(d.times(t)).floor_i32(),
{
    start.add_to(d.multiply(t)).to_floor_i32()
}

/// Whether some block in which a part of the way ends, other than those at its
/// ends, lets no vibration through.
pub(crate) fn is_sample_blocked<F: Fn(BlockPos) -> Block>(
    from: BlockPos,
    to: BlockPos,
    block_at: &F,
) -> (r: bool)
    requires
        forall|p: BlockPos| call_requires(*block_at, (p,)),
    ensures
        r ==> exists|p: BlockPos| #[trigger]
            sampled(from, to, p) && p != from && p != to && stopped(*block_at, p),
        !r ==> forall|p: BlockPos| #[trigger]
            sampled(from, to, p) && p != from && p != to ==> let_through(*block_at, p),
{
    let start = from.to_centered();
    let end = to.to_centered();
    let d = Vector3 {
        x: end.x.subtract(start.x),
        y: end.y.subtract(start.y),
        z: end.z.subtract(start.z),
    };
    let parts: i32 = count_parts(from, to, d);
    let mut last: Option<BlockPos> = None;
    let mut i: i32 = 1;
    while i < parts
        invariant
            forall|p: BlockPos| call_requires(*block_at, (p,)),
            start == from.centered(),
            d == way(from, to),
            parts == parts_of_way(from, to),
            1 <= i <= parts,
            last is Some ==> let_through(*block_at, last->0),
            forall|j: int|
                1 <= j < i ==> {
                    let p = #[trigger] block_on_way(from, to, j);
                    p == from || p == to || let_through(*block_at, p)
                },
        decreases parts - i,
    {
        let t = Binary64::from_integer(i).divide(Binary64::from_integer(parts));
        let pos = BlockPos {
            x: step_coordinate(start.x, d.x, t),
            y: step_coordinate(start.y, d.y, t),
            z: step_coordinate(start.z, d.z, t),
        };
        assert(pos == block_on_way(from, to, i as int));
        let repeated: bool = match last {
            Some(p) => p == pos,
            None => false,
        };
        if !(repeated || pos == from || pos == to) {
            last = Some(pos);
            let block = block_at(pos);
            if block.dampens_vibrations || block.occludes_vibration_signals {
                assert(sampled(from, to, pos) && stopped(*block_at, pos));
                return true;
            }
            assert(let_through(*block_at, pos));
        }
        i = i + 1;
    }
    false
}

/// The way along one axis has a whole number of blocks.
pub proof fn lemma_way_units(a: i32, b: i32)
    ensures
        ({
            let d = BlockPos::center_of(b as int).minus(BlockPos::center_of(a as int));
            d.finite() && d.units() == (b - a) * pow2(1074)
        }),
{
    let s = BlockPos::center_of(a as int);
    let e = BlockPos::center_of(b as int);
    let h = pow2(1073) as int;
    let u = pow2(1074) as int;
    lemma_center_units(a);
    lemma_center_units(b);
    lemma_pow2_pos(1073);
    lemma_pow2_unfold(1074);
    assert(s.negated().units() == -s.units());
    let sum = e.units() + s.negated().units();
    assert(sum == (b - a) * u) by (nonlinear_arith)
        requires
            sum == (2 * b + 1) * h - (2 * a + 1) * h,
            u == 2 * h,
    ;
    let l: nat = if b >= a {
        (b - a) as nat
    } else {
        (a - b) as nat
    };
    lemma_short_is_exact(e.negative() && s.negated().negative(), l);
    lemma_short_is_exact(true, l);
    lemma_short_is_exact(false, l);
    assert(-(l * u) == (-(l as int)) * u) by (nonlinear_arith);
    assert(sum > 0 ==> b > a) by (nonlinear_arith)
        requires
            sum == (b - a) * u,
            u > 0,
    ;
    assert(sum < 0 ==> b < a) by (nonlinear_arith)
        requires
            sum == (b - a) * u,
            u > 0,
    ;
    if sum == 0 {
        assert(b == a) by (nonlinear_arith)
            requires
                0 == (b - a) * u,
                u > 0,
        ;
        assert(0 * u == 0);
    }
}

/// A number of whole blocks is not rounded.
pub proof fn lemma_short_is_exact(negative: bool, l: nat)
    requires
        l <= 0xffff_ffff,
    ensures
        ({
            let u = l * pow2(1074);
            let n = Binary64::of_units(negative, u);
            &&& round_units(u, 1, HIDDEN_BIT as nat) == u
            &&& n.finite()
            &&& n.negative() == negative
            &&& n.abs_units() == u
        }),
{
    let u = l * pow2(1074);
    rounding_keeps_short_counts(l, 1074, 1);
    assert(u * 1 == u);
    rounded_number_has_units(negative, u, 1);
    lemma2_to64();
    lemma_pow2_pos(1074);
    lemma_pow2_adds(32, 1074);
    lemma_pow2_strictly_increases(1106, 2098);
    assert(u < pow2(1106)) by (nonlinear_arith)
        requires
            u == l * pow2(1074),
            l < pow2(32),
            pow2(1106) == pow2(32) * pow2(1074),
            pow2(1074) > 0,
    ;
}

/// A part of the way is a share of at most 1.
pub proof fn lemma_share(i: int, parts: int)
    requires
        1 <= i < parts <= i32::MAX,
    ensures
        ({
            let t = Binary64::of_integer(i).over(Binary64::of_integer(parts));
            &&& t.finite()
            &&& !t.negative()
            &&& t.abs_units() <= pow2(1074)
            &&& t.abs_units() == round_units(
                (i as nat * pow2(1074)) * pow2(1074),
                parts as nat * pow2(1074),
                HIDDEN_BIT as nat,
            )
        }),
{
    let u = pow2(1074);
    let n = Binary64::of_integer(i);
    let m = Binary64::of_integer(parts);
    integer_has_units(i as nat);
    integer_has_units(parts as nat);
    lemma_pow2_pos(1074);
    lemma2_to64();
    assert(m.abs_units() > 0) by (nonlinear_arith)
        requires
            m.abs_units() == parts * u,
            parts > 0,
            u > 0,
    ;
    lemma_abs_units_order(m, m);
    let den = m.abs_units();
    let num = n.abs_units() * u;
    assert(num <= (1 * u) * den) by (nonlinear_arith)
        requires
            num == (i * u) * u,
            den == parts * u,
            i <= parts,
            u > 0,
    ;
    rounding_keeps_short_counts(1, 1074, den);
    rounding_keeps_order(num, (1 * u) * den, den, HIDDEN_BIT as nat);
    rounded_number_has_units(false, num, den);
    lemma_pow2_strictly_increases(1074, 2098);
}

/// A share of a way is no longer than the way, and goes the same direction.
pub proof fn lemma_part(d: Binary64, l: nat, t: Binary64)
    requires
        d.finite(),
        l <= 0xffff_ffff,
        d.abs_units() == l * pow2(1074),
        t.finite(),
        !t.negative(),
        t.abs_units() <= pow2(1074),
    ensures
        d.times(t).finite(),
        d.times(t).negative() == d.negative(),
        d.times(t).abs_units() <= d.abs_units(),
{
    let u = pow2(1074);
    let num = d.abs_units() * t.abs_units();
    lemma_pow2_pos(1074);
    assert(num <= (l * u) * u) by (nonlinear_arith)
        requires
            num == (l * u) * t.abs_units(),
            t.abs_units() <= u,
            l * u >= 0,
    ;
    rounding_keeps_short_counts(l, 1074, u);
    rounding_keeps_order(num, (l * u) * u, u, HIDDEN_BIT as nat);
    rounded_number_has_units(d.negative(), num, u);
    lemma_short_is_exact(false, l);
    finite_units_bounded(Binary64::of_units(false, l * u));
}

/// What lies above the center of a block is not rounded below it, and what lies
/// below not above.
proof fn lemma_sum_keeps_side(s: Binary64, m: Binary64, v: i32)
    requires
        s.finite(),
        m.finite(),
    ensures
        ({
            let c = (2 * v + 1) * pow2(1073);
            let sum = s.units() + m.units();
            let r = s.plus(m);
            &&& !r.nan()
            &&& sum >= c && r.finite() ==> r.units() >= c
            &&& sum <= c && r.finite() ==> r.units() <= c
            &&& sum >= c && r.infinite() && r.negative() ==> false
            &&& sum <= c && r.infinite() && !r.negative() ==> false
        }),
{
    let h = pow2(1073);
    let c = (2 * v + 1) * h;
    let sum = s.units() + m.units();
    let r = s.plus(m);
    let k: nat = if v >= 0 {
        (2 * v + 1) as nat
    } else {
        (-(2 * v + 1)) as nat
    };
    let w = k * h;
    lemma_center_units(v);
    lemma_pow2_pos(1073);
    assert(v >= 0 ==> c == w && c > 0) by (nonlinear_arith)
        requires
            c == (2 * v + 1) * h,
            w == k * h,
            v >= 0 ==> k == 2 * v + 1,
            h > 0,
    ;
    assert(v < 0 ==> c == -(w as int) && c < 0) by (nonlinear_arith)
        requires
            c == (2 * v + 1) * h,
            w == k * h,
            v < 0 ==> k == -(2 * v + 1),
            h > 0,
    ;
    rounding_keeps_short_counts(k, 1073, 1);
    assert(w * 1 == w);
    finite_units_bounded(BlockPos::center_of(v as int));
    let size: nat = if sum < 0 {
        (-sum) as nat
    } else {
        sum as nat
    };
    rounded_number_has_units(sum < 0, size, 1);
    if size <= w {
        rounding_keeps_order(size, w, 1, HIDDEN_BIT as nat);
    }
    if size >= w {
        rounding_keeps_order(w, size, 1, HIDDEN_BIT as nat);
    }
    if sum == 0 {
        rounding_keeps_short_counts(0, 0, 1);
        assert(0 * pow2(0) == 0);
        rounded_number_has_units(s.negative() && m.negative(), 0, 1);
        lemma_pow2_pos(2098);
    }
}

/// Each coordinate of a point on the way lies between its ends.
proof fn lemma_coordinate_between(a: i32, b: i32, i: int, parts: int)
    requires
        1 <= i < parts <= i32::MAX,
    ensures
        between(
            a,
            b,
            coordinate_on_way(
                BlockPos::center_of(a as int),
                BlockPos::center_of(b as int).minus(BlockPos::center_of(a as int)),
                i,
                parts,
            ),
        ),
{
    let s = BlockPos::center_of(a as int);
    let d = BlockPos::center_of(b as int).minus(s);
    let t = Binary64::of_integer(i).over(Binary64::of_integer(parts));
    let u = pow2(1074) as int;
    let h = pow2(1073) as int;
    let l: nat = if b >= a {
        (b - a) as nat
    } else {
        (a - b) as nat
    };
    lemma_pow2_pos(1073);
    lemma_pow2_unfold(1074);
    lemma_center_units(a);
    lemma_way_units(a, b);
    lemma_share(i, parts);
    assert(d.abs_units() == l * pow2(1074)) by (nonlinear_arith)
        requires
            d.units() == (b - a) * pow2(1074),
            d.units() == d.abs_units() || d.units() == -(d.abs_units() as int),
            l == b - a || l == a - b,
            l >= 0,
            pow2(1074) > 0,
    ;
    lemma_part(d, l, t);
    let m = d.times(t);
    let r = s.plus(m);
    lemma_sum_keeps_side(s, m, a);
    lemma_sum_keeps_side(s, m, b);
    let sum = s.units() + m.units();
    let ca = (2 * a + 1) * h;
    let cb = (2 * b + 1) * h;
    assert(cb - ca == (b - a) * u) by (nonlinear_arith)
        requires
            ca == (2 * a + 1) * h,
            cb == (2 * b + 1) * h,
            u == 2 * h,
    ;
    assert(b >= a ==> (b - a) * u >= 0) by (nonlinear_arith)
        requires
            u > 0,
    ;
    assert(b <= a ==> (b - a) * u <= 0) by (nonlinear_arith)
        requires
            u > 0,
    ;
    assert(b >= a ==> ca <= sum <= cb);
    assert(b <= a ==> cb <= sum <= ca);
    assert(r.finite());
    let (low, high) = if b >= a {
        (a as int, b as int)
    } else {
        (b as int, a as int)
    };
    let v = r.units();
    assert((2 * low + 1) * h <= v <= (2 * high + 1) * h);
    assert(low * u <= v < (high + 1) * u) by (nonlinear_arith)
        requires
            (2 * low + 1) * h <= v <= (2 * high + 1) * h,
            u == 2 * h,
            h > 0,
    ;
    lemma_fundamental_div_mod(v, u);
    lemma_mod_bound(v, u);
    let q = v / u;
    assert(low <= q <= high) by (nonlinear_arith)
        requires
            v == u * q + v % u,
            0 <= v % u < u,
            low * u <= v < (high + 1) * u,
    ;
}

/// The points on the way lie between its ends in every direction.
pub proof fn samples_lie_between_the_ends(from: BlockPos, to: BlockPos, p: BlockPos)
    requires
        sampled(from, to, p),
    ensures
        between(from.x, to.x, p.x),
        between(from.y, to.y, p.y),
        between(from.z, to.z, p.z),
{
    let parts = parts_of_way(from, to);
    let i = choose|i: int| 1 <= i < parts && #[trigger] block_on_way(from, to, i) == p;
    lemma_coordinate_between(from.x, to.x, i, parts);
    lemma_coordinate_between(from.y, to.y, i, parts);
    lemma_coordinate_between(from.z, to.z, i, parts);
}

} // verus!
