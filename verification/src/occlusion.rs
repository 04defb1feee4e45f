//! What stands in the way of a vibration.
use vstd::prelude::*;

use crate::block::Block;
use crate::position::BlockPos;
use crate::ray::{
    between, is_ray_blocked, passes_through, ray_along_an_axis_is_straight, ray_back_is_the_same,
    ray_stays_between_its_ends,
};
use crate::sampling::{is_sample_blocked, sampled, samples_lie_between_the_ends};
use crate::touch::{near, passing_is_touching, samples_touch_the_ray, touches};

verus! {

/// A block lies on the way, and is neither of its ends: the ray between their
/// centers passes through its inside. A block that the ray only touches, at an
/// edge or a corner, lies on the way where one of the points that are taken every
/// half block, rounded down, falls into it.
pub open spec fn lies_between(from: BlockPos, to: BlockPos, p: BlockPos) -> bool {
    &&& p != from
    &&& p != to
    &&& passes_through(from, to, p) || sampled(from, to, p)
}

/// The block that `block_at` found at a position lets vibrations through.
pub open spec fn let_through<F: Fn(BlockPos) -> Block>(block_at: F, p: BlockPos) -> bool {
    exists|b: Block| #[trigger] call_ensures(block_at, (p,), b) && !b.stops_vibrations()
}

/// The block that `block_at` found at a position stops vibrations.
pub open spec fn stopped<F: Fn(BlockPos) -> Block>(block_at: F, p: BlockPos) -> bool {
    exists|b: Block| #[trigger] call_ensures(block_at, (p,), b) && b.stops_vibrations()
}

/// `block_at` found a block on the way that stops vibrations.
pub open spec fn found_occluded<F: Fn(BlockPos) -> Block>(
    block_at: F,
    from: BlockPos,
    to: BlockPos,
) -> bool {
    exists|p: BlockPos| #[trigger] lies_between(from, to, p) && stopped(block_at, p)
}

/// `block_at` found that every block on the way lets vibrations through.
pub open spec fn found_clear<F: Fn(BlockPos) -> Block>(
    block_at: F,
    from: BlockPos,
    to: BlockPos,
) -> bool {
    forall|p: BlockPos| #[trigger] lies_between(from, to, p) ==> let_through(block_at, p)
}

/// `block_at` answers with the blocks of a world.
pub open spec fn tells<F: Fn(BlockPos) -> Block>(
    block_at: F,
    blocks: spec_fn(BlockPos) -> Block,
) -> bool {
    forall|p: BlockPos, b: Block| #[trigger] call_ensures(block_at, (p,), b) ==> b == blocks(p)
}

/// Some block of a world stops a vibration on its way.
pub open spec fn occluded(
    from: BlockPos,
    to: BlockPos,
    blocks: spec_fn(BlockPos) -> Block,
) -> bool {
    exists|p: BlockPos| #[trigger] lies_between(from, to, p) && blocks(p).stops_vibrations()
}

/// True if the ray between block centers is occluded: some block on it, other
/// than those at its ends, lets no vibration through. `block_at` gives the
/// block at a position.
pub fn is_vibration_occluded<F: Fn(BlockPos) -> Block>(
    from: BlockPos,
    to: BlockPos,
    block_at: &F,
) -> (r: bool)
    requires
        forall|p: BlockPos| call_requires(*block_at, (p,)),
    ensures
        r ==> found_occluded(*block_at, from, to),
        !r ==> found_clear(*block_at, from, to),
        forall|blocks: spec_fn(BlockPos) -> Block| #[trigger]
            tells(*block_at, blocks) ==> r == occluded(from, to, blocks),
{
    if is_ray_blocked(from, to, block_at) {
        proof {
            let p = choose|p: BlockPos| #[trigger]
                passes_through(from, to, p) && p != from && p != to && stopped(*block_at, p);
            assert(lies_between(from, to, p));
        }
        return true;
    }
    if is_sample_blocked(from, to, block_at) {
        proof {
            let p = choose|p: BlockPos| #[trigger]
                sampled(from, to, p) && p != from && p != to && stopped(*block_at, p);
            assert(lies_between(from, to, p));
        }
        return true;
    }
    false
}

/// A block on the way lies between the ends in every direction.
pub proof fn way_lies_between_the_ends(from: BlockPos, to: BlockPos, p: BlockPos)
    requires
        lies_between(from, to, p),
    ensures
        between(from.x, to.x, p.x),
        between(from.y, to.y, p.y),
        between(from.z, to.z, p.z),
{
    if passes_through(from, to, p) {
        ray_stays_between_its_ends(from, to, p);
    } else {
        samples_lie_between_the_ends(from, to, p);
    }
}

/// In a neighborhood, every block on the way is at least touched by the ray.
pub proof fn way_touches_the_ray(from: BlockPos, to: BlockPos, p: BlockPos)
    requires
        near(from, to),
        lies_between(from, to, p),
    ensures
        touches(from, to, p),
{
    if passes_through(from, to, p) {
        passing_is_touching(from, to, p);
    } else {
        samples_touch_the_ray(from, to, p);
    }
}

/// Along one axis, the blocks on the way are exactly those between the ends.
pub proof fn way_along_an_axis_is_straight(from: BlockPos, to: BlockPos, p: BlockPos)
    requires
        ({
            ||| from.y == to.y && from.z == to.z
            ||| from.x == to.x && from.z == to.z
            ||| from.x == to.x && from.y == to.y
        }),
    ensures
        lies_between(from, to, p) <==> {
            &&& p != from
            &&& p != to
            &&& between(from.x, to.x, p.x)
            &&& between(from.y, to.y, p.y)
            &&& between(from.z, to.z, p.z)
        },
{
    if lies_between(from, to, p) {
        way_lies_between_the_ends(from, to, p);
    }
    if p != from && p != to && between(from.x, to.x, p.x) && between(from.y, to.y, p.y) && between(
        from.z,
        to.z,
        p.z,
    ) {
        ray_along_an_axis_is_straight(from, to, p);
    }
}

/// A block that the ray passes through, and that stops vibrations, occludes in
/// both directions.
pub proof fn blocks_on_the_ray_occlude_both_ways(
    from: BlockPos,
    to: BlockPos,
    p: BlockPos,
    blocks: spec_fn(BlockPos) -> Block,
)
    requires
        passes_through(from, to, p),
        p != from,
        p != to,
        blocks(p).stops_vibrations(),
    ensures
        occluded(from, to, blocks),
        occluded(to, from, blocks),
{
    ray_back_is_the_same(from, to, p);
    assert(lies_between(from, to, p));
    assert(lies_between(to, from, p));
}

/// A vibration always gets out of the block in which it happened.
pub proof fn own_block_is_never_occluded(p: BlockPos, blocks: spec_fn(BlockPos) -> Block)
    ensures
        !occluded(p, p, blocks),
{
    if occluded(p, p, blocks) {
        let q = choose|q: BlockPos| #[trigger]
            lies_between(p, p, q) && blocks(q).stops_vibrations();
        way_lies_between_the_ends(p, p, q);
    }
}

/// The blocks at the ends of the way are never in the way.
pub proof fn ends_do_not_occlude(
    from: BlockPos,
    to: BlockPos,
    blocks: spec_fn(BlockPos) -> Block,
    others: spec_fn(BlockPos) -> Block,
)
    requires
        forall|p: BlockPos| p != from && p != to ==> #[trigger] blocks(p) == others(p),
    ensures
        occluded(from, to, blocks) == occluded(from, to, others),
{
    if occluded(from, to, others) {
        let p = choose|p: BlockPos| #[trigger]
            lies_between(from, to, p) && others(p).stops_vibrations();
        assert(blocks(p) == others(p));
    }
}

/// A block that has a point of the ray inside lies on the way: one of which, after
/// `n / d` of the way, every coordinate lies strictly between the sides of the block.
/// Coordinates are counted here in half blocks, and times `d`.
pub proof fn blocks_around_a_point_of_the_ray_lie_on_the_way(
    from: BlockPos,
    to: BlockPos,
    p: BlockPos,
    n: int,
    d: int,
)
    requires
        0 < n < d,
        2 * p.x * d < (2 * from.x + 1) * d + 2 * (to.x - from.x) * n < 2 * (p.x + 1) * d,
        2 * p.y * d < (2 * from.y + 1) * d + 2 * (to.y - from.y) * n < 2 * (p.y + 1) * d,
        2 * p.z * d < (2 * from.z + 1) * d + 2 * (to.z - from.z) * n < 2 * (p.z + 1) * d,
        p != from,
        p != to,
    ensures
        lies_between(from, to, p),
{
    assert(crate::ray::point_inside(from, to, p, n, d));
}

/// In a neighborhood, a block on the way has a point of the ray inside or on its border:
/// the one after `n / d` of the way, for the numbers that are returned.
pub proof fn blocks_on_the_way_have_a_point_of_the_ray(
    from: BlockPos,
    to: BlockPos,
    p: BlockPos,
) -> (r: (int, int))
    requires
        near(from, to),
        lies_between(from, to, p),
    ensures
        ({
            let (n, d) = r;
            &&& 0 < n < d
            &&& 2 * p.x * d <= (2 * from.x + 1) * d + 2 * (to.x - from.x) * n <= 2 * (p.x + 1) * d
            &&& 2 * p.y * d <= (2 * from.y + 1) * d + 2 * (to.y - from.y) * n <= 2 * (p.y + 1) * d
            &&& 2 * p.z * d <= (2 * from.z + 1) * d + 2 * (to.z - from.z) * n <= 2 * (p.z + 1) * d
        }),
{
    way_touches_the_ray(from, to, p);
    let (n, d) = choose|n: int, d: int| #[trigger]
        crate::touch::point_touching(from, to, p, n, d);
    (n, d)
}

/// The blocks into which the points fall that are taken along the way lie on it.
pub proof fn samples_lie_on_the_way(from: BlockPos, to: BlockPos, i: int)
    requires
        1 <= i < crate::sampling::parts_of_way(from, to),
        crate::sampling::block_on_way(from, to, i) != from,
        crate::sampling::block_on_way(from, to, i) != to,
    ensures
        lies_between(from, to, crate::sampling::block_on_way(from, to, i)),
{
}

/// One block on the way with either of the two tags occludes, whatever the others are.
pub proof fn one_block_occludes(
    from: BlockPos,
    to: BlockPos,
    p: BlockPos,
    blocks: spec_fn(BlockPos) -> Block,
)
    requires
        lies_between(from, to, p),
        blocks(p).dampens_vibrations || blocks(p).occludes_vibration_signals,
    ensures
        occluded(from, to, blocks),
{
}

/// What occludes is a block on the way, other than its ends, with one of the two tags.
pub proof fn a_block_on_the_way_occludes(
    from: BlockPos,
    to: BlockPos,
    blocks: spec_fn(BlockPos) -> Block,
) -> (p: BlockPos)
    requires
        occluded(from, to, blocks),
    ensures
        lies_between(from, to, p),
        p != from,
        p != to,
        blocks(p).dampens_vibrations || blocks(p).occludes_vibration_signals,
{
    choose|p: BlockPos| #[trigger] lies_between(from, to, p) && blocks(p).stops_vibrations()
}

} // verus!
