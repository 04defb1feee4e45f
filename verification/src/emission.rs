//! The emission of a game event: who could hear it.
use vstd::prelude::*;

use crate::block::{source_dampens_vibrations, Block, BlockId};
use crate::distance::{
    center_distance, distance_to_center, range_of, ranges_are_ordered, sensor_range,
};
use crate::event::{
    frequency_of, game_event_frequency, ignored_when_sneaking, quiet_when_sneaking, GameEvent,
    VibrationSource,
};
use crate::occlusion::{found_clear, found_occluded, is_vibration_occluded, occluded, tells};
use crate::position::{BlockPos, Vector3};
use crate::reach::{blocks_in_reach_are_near, distances_are_numbers};

verus! {

/// The rules by which a world hands vibrations to its sensors. The blocks
/// themselves, and everything that changes them, are the caller's.
pub struct World;

/// An event that may be heard.
#[derive(Debug)]
pub struct Emission {
    pub frequency: u8,
    pub from_player: bool,
    /// The block in which the event happened.
    pub center: BlockPos,
    /// The sensors in range, in the order in which they are asked, and which
    /// of them are calibrated.
    pub candidates: Vec<(BlockPos, bool)>,
}

/// Sensors listen to such an event of such a source.
pub open spec fn audible(event: GameEvent, source: VibrationSource) -> bool {
    &&& !source.is_sculk_or_warden
    &&& !(source.is_sneaking && quiet_when_sneaking(event))
    &&& frequency_of(event) != 0
}

/// Wool under the event swallows it.
pub open spec fn muffled_by_wool(event: GameEvent) -> bool {
    ||| event == GameEvent::BlockPlace
    ||| event == GameEvent::BlockDestroy
    ||| event == GameEvent::Step
    ||| event == GameEvent::HitGround
    ||| event == GameEvent::ProjectileLand
}

/// The event gets away from the block in which it happened.
pub open spec fn heard(event: GameEvent, source: VibrationSource, block: Block) -> bool {
    audible(event, source) && !(block.dampens_vibrations && muffled_by_wool(event))
}

/// How many positions lie in the cube around an event: 33 in each direction.
pub const CELLS: u32 = 35937;

/// The `n`-th position of the cube, counted with `z` fastest and `x` slowest.
#[verifier::opaque]
pub open spec fn cell(center: BlockPos, n: int) -> BlockPos {
    BlockPos {
        x: (center.x + n / 1089 - 16) as i32,
        y: (center.y + (n / 33) % 33 - 16) as i32,
        z: (center.z + n % 33 - 16) as i32,
    }
}

/// A sensor with the greater range, at `p`, may hear what happens at `pos`.
pub open spec fn in_reach(pos: Vector3, p: BlockPos) -> bool {
    !distance_to_center(pos, p).above(range_of(true))
}

/// Whether a block is a sensor in range, and whether it is a calibrated one.
#[verifier::opaque]
pub open spec fn candidate(pos: Vector3, p: BlockPos, block: Block) -> Option<bool> {
    if !in_reach(pos, p) {
        None
    } else if block.id == BlockId::SculkSensor && distance_to_center(pos, p).at_most(
        range_of(false),
    ) {
        Some(false)
    } else if block.id == BlockId::CalibratedSculkSensor {
        Some(true)
    } else {
        None
    }
}

/// The candidates among the first positions of the cube. `seen` tells for each
/// of them which block it holds, if its chunk is active.
pub open spec fn candidates(pos: Vector3, center: BlockPos, seen: Seq<Option<Block>>) -> Seq<
    (BlockPos, bool),
>
    decreases seen.len(),
{
    if seen.len() == 0 {
        seq![]
    } else {
        let before = candidates(pos, center, seen.drop_last());
        let p = cell(center, seen.len() - 1);
        match seen.last() {
            Some(block) => match candidate(pos, p, block) {
                Some(calibrated) => before.push((p, calibrated)),
                None => before,
            },
            None => before,
        }
    }
}

/// What was seen at a position is what `block_at` and `chunk_active` said.
pub open spec fn answered<F: Fn(BlockPos) -> Block, G: Fn((i32, i32)) -> bool>(
    p: BlockPos,
    answer: Option<Block>,
    block_at: F,
    chunk_active: G,
) -> bool {
    match answer {
        Some(block) => call_ensures(chunk_active, (p.chunk(),), true) && call_ensures(
            block_at,
            (p,),
            block,
        ),
        None => call_ensures(chunk_active, (p.chunk(),), false),
    }
}

/// So it was at each position that lies in reach.
pub open spec fn seen_by<F: Fn(BlockPos) -> Block, G: Fn((i32, i32)) -> bool>(
    pos: Vector3,
    center: BlockPos,
    seen: Seq<Option<Block>>,
    block_at: F,
    chunk_active: G,
) -> bool {
    forall|n: int|
        0 <= n < seen.len() && in_reach(pos, #[trigger] cell(center, n)) ==> answered(
            cell(center, n),
            seen[n],
            block_at,
            chunk_active,
        )
}

impl World {
    /// Whether sensors listen to such an event of such a source.
    pub fn is_audible(event: GameEvent, source: VibrationSource) -> (r: bool)
        ensures
            r == audible(event, source),
    {
        if source.is_sculk_or_warden {
            return false;
        }
        if source.is_sneaking && ignored_when_sneaking(&event) {
            return false;
        }
        game_event_frequency(&event) != 0
    }

    /// Whether an event gets away from the block in which it happened: wool or
    /// carpet swallows place, destroy and step events.
    pub fn is_heard(event: GameEvent, source: VibrationSource, block: &Block) -> (r: bool)
        ensures
            r == heard(event, source, *block),
    {
        World::is_audible(event, source) && !(source_dampens_vibrations(block) && matches!(
            event,
            GameEvent::BlockPlace
                | GameEvent::BlockDestroy
                | GameEvent::Step
                | GameEvent::HitGround
                | GameEvent::ProjectileLand
        ))
    }

    /// Emits a game event (vibration) at `pos`: finds the sensors that may
    /// hear it. `block_at` gives the block at a position, `chunk_active` says
    /// whether a chunk is active.
    pub fn emit_game_event<F: Fn(BlockPos) -> Block, G: Fn((i32, i32)) -> bool>(
        pos: Vector3,
        event: GameEvent,
        source: VibrationSource,
        block_at: &F,
        chunk_active: &G,
    ) -> (r: Option<Emission>)
        requires
            forall|p: BlockPos| call_requires(*block_at, (p,)),
            forall|c: (i32, i32)| call_requires(*chunk_active, (c,)),
            // Coordinates around an event that is heard have 32 bits.
            forall|b: Block|
                #[trigger] call_ensures(*block_at, (BlockPos::holding(pos),), b) && heard(
                    event,
                    source,
                    b,
                ) ==> BlockPos::holding(pos).has_room(16),
        ensures
            !audible(event, source) ==> r is None,
            audible(event, source) ==> exists|b: Block|
                #[trigger] call_ensures(*block_at, (BlockPos::holding(pos),), b) && (r is Some
                    == heard(event, source, b)),
            r matches Some(emission) ==> {
                &&& emission.frequency == frequency_of(event)
                &&& emission.from_player == source.is_player
                &&& emission.center == BlockPos::holding(pos)
                &&& exists|seen: Seq<Option<Block>>|
                    seen.len() == CELLS && #[trigger] seen_by(
                        pos,
                        emission.center,
                        seen,
                        *block_at,
                        *chunk_active,
                    ) && emission.candidates@ == candidates(pos, emission.center, seen)
            },
    {
        if !World::is_audible(event, source) {
            return None;
        }
        let frequency: u8 = game_event_frequency(&event);
        let center = BlockPos::containing(pos);
        let source_block = block_at(center);
        if !World::is_heard(event, source, &source_block) {
            return None;
        }
        let found = World::scan(pos, center, block_at, chunk_active);
        Some(Emission { frequency, from_player: source.is_player, center, candidates: found })
    }

    /// The sensors in range of a point, among the active chunks.
    fn scan<F: Fn(BlockPos) -> Block, G: Fn((i32, i32)) -> bool>(
        pos: Vector3,
        center: BlockPos,
        block_at: &F,
        chunk_active: &G,
    ) -> (r: Vec<(BlockPos, bool)>)
        requires
            forall|p: BlockPos| call_requires(*block_at, (p,)),
            forall|c: (i32, i32)| call_requires(*chunk_active, (c,)),
            center.has_room(16),
        ensures
            exists|seen: Seq<Option<Block>>|
                seen.len() == CELLS && #[trigger] seen_by(
                    pos,
                    center,
                    seen,
                    *block_at,
                    *chunk_active,
                ) && r@ == candidates(pos, center, seen),
    {
        let mut found: Vec<(BlockPos, bool)> = Vec::new();
        let ghost mut seen: Seq<Option<Block>> = seq![];
        let mut n: u32 = 0;
        while n < CELLS
            invariant
                forall|p: BlockPos| call_requires(*block_at, (p,)),
                forall|c: (i32, i32)| call_requires(*chunk_active, (c,)),
                center.has_room(16),
                n <= CELLS,
                seen.len() == n,
                seen_by(pos, center, seen, *block_at, *chunk_active),
                found@ == candidates(pos, center, seen),
            decreases CELLS - n,
        {
            let p = World::position(center, n);
            let (choice, Ghost(answer)) = World::examine(pos, p, block_at, chunk_active);
            if let Some(calibrated) = choice {
                found.push((p, calibrated));
            }
            proof {
                lemma_seen_push(pos, center, seen, answer, *block_at, *chunk_active);
                assert(seen.push(answer).drop_last() =~= seen);
                seen = seen.push(answer);
            }
            n = n + 1;
        }
        found
    }

    /// The `n`-th position of the cube.
    fn position(center: BlockPos, n: u32) -> (r: BlockPos)
        requires
            n < CELLS,
            center.has_room(16),
        ensures
            r == cell(center, n as int),
    {
        proof {
            reveal(cell);
        }
        let dx: i32 = (n / 1089) as i32 - 16;
        let dy: i32 = ((n / 33) % 33) as i32 - 16;
        let dz: i32 = (n % 33) as i32 - 16;
        BlockPos { x: center.x + dx, y: center.y + dy, z: center.z + dz }
    }

    /// Whether there is a sensor in range at a position, and whether it is a
    /// calibrated one.
    fn examine<F: Fn(BlockPos) -> Block, G: Fn((i32, i32)) -> bool>(
        pos: Vector3,
        p: BlockPos,
        block_at: &F,
        chunk_active: &G,
    ) -> (r: (Option<bool>, Ghost<Option<Block>>))
        requires
            forall|p: BlockPos| call_requires(*block_at, (p,)),
            forall|c: (i32, i32)| call_requires(*chunk_active, (c,)),
        ensures
            in_reach(pos, p) ==> answered(p, r.1@, *block_at, *chunk_active),
            r.0 == match r.1@ {
                Some(block) => candidate(pos, p, block),
                None => None,
            },
    {
        proof {
            reveal(candidate);
        }
        let distance = center_distance(pos, p);
        if distance.is_above(sensor_range(true)) {
            return (None, Ghost(None));
        }
        if !chunk_active(p.chunk_position()) {
            return (None, Ghost(None));
        }
        let block = block_at(p);
        if block.id == BlockId::SculkSensor && distance.is_at_most(sensor_range(false)) {
            (Some(false), Ghost(Some(block)))
        } else if block.id == BlockId::CalibratedSculkSensor {
            (Some(true), Ghost(Some(block)))
        } else {
            (None, Ghost(Some(block)))
        }
    }
}

impl Emission {
    /// The first candidate from the index `from` on that the vibration can
    /// reach: nothing occludes the way from the event's block to it.
    pub fn next_listener<F: Fn(BlockPos) -> Block>(&self, from: usize, block_at: &F) -> (r: Option<
        usize,
    >)
        requires
            forall|p: BlockPos| call_requires(*block_at, (p,)),
        ensures
            ({
                let end = match r {
                    Some(i) => i as int,
                    None => self.candidates@.len() as int,
                };
                &&& r is Some ==> from <= end < self.candidates@.len() && found_clear(
                    *block_at,
                    self.center,
                    self.candidates@[end].0,
                )
                &&& forall|j: int|
                    from <= j < end ==> found_occluded(
                        *block_at,
                        self.center,
                        (#[trigger] self.candidates@[j]).0,
                    )
                &&& forall|blocks: spec_fn(BlockPos) -> Block| #[trigger]
                    tells(*block_at, blocks) ==> {
                        &&& r is Some ==> !occluded(
                            self.center,
                            self.candidates@[end].0,
                            blocks,
                        )
                        &&& forall|j: int|
                            from <= j < end ==> occluded(
                                self.center,
                                (#[trigger] self.candidates@[j]).0,
                                blocks,
                            )
                    }
            }),
    {
        let mut i: usize = from;
        while i < self.candidates.len()
            invariant
                from <= i,
                i > self.candidates@.len() ==> i == from,
                forall|p: BlockPos| call_requires(*block_at, (p,)),
                forall|j: int|
                    from <= j < i ==> found_occluded(
                        *block_at,
                        self.center,
                        (#[trigger] self.candidates@[j]).0,
                    ),
                forall|blocks: spec_fn(BlockPos) -> Block, j: int|
                    #![trigger tells(*block_at, blocks), self.candidates@[j]]
                    tells(*block_at, blocks) && from <= j < i ==> occluded(
                        self.center,
                        self.candidates@[j].0,
                        blocks,
                    ),
            decreases self.candidates.len() - i,
        {
            let (sensor_pos, _) = self.candidates[i];
            if !is_vibration_occluded(self.center, sensor_pos, block_at) {
                return Some(i);
            }
            i = i + 1;
        }
        None
    }
}

/// One more position has been seen.
proof fn lemma_seen_push<F: Fn(BlockPos) -> Block, G: Fn((i32, i32)) -> bool>(
    pos: Vector3,
    center: BlockPos,
    seen: Seq<Option<Block>>,
    answer: Option<Block>,
    block_at: F,
    chunk_active: G,
)
    requires
        seen_by(pos, center, seen, block_at, chunk_active),
        in_reach(pos, cell(center, seen.len() as int)) ==> answered(
            cell(center, seen.len() as int),
            answer,
            block_at,
            chunk_active,
        ),
    ensures
        seen_by(pos, center, seen.push(answer), block_at, chunk_active),
{
}

/// The cube holds every position up to 16 blocks away in each direction, and
/// each of them once.
pub proof fn cube_holds_each_position_once(center: BlockPos, p: BlockPos)
    requires
        center.has_room(16),
    ensures
        (exists|n: int| 0 <= n < CELLS && #[trigger] cell(center, n) == p) <==> {
            &&& -16 <= p.x - center.x <= 16
            &&& -16 <= p.y - center.y <= 16
            &&& -16 <= p.z - center.z <= 16
        },
        forall|n: int, m: int|
            0 <= n < CELLS && 0 <= m < CELLS && #[trigger] cell(center, n) == #[trigger] cell(
                center,
                m,
            ) ==> n == m,
{
    reveal(cell);
    if -16 <= p.x - center.x <= 16 && -16 <= p.y - center.y <= 16 && -16 <= p.z - center.z <= 16 {
        let n = 1089 * (p.x - center.x + 16) + 33 * (p.y - center.y + 16) + (p.z - center.z + 16);
        assert(cell(center, n) == p);
    }
}

/// A sensor in range was seen at the `n`-th position, which is `p`.
pub open spec fn sensor_seen(
    pos: Vector3,
    center: BlockPos,
    seen: Seq<Option<Block>>,
    n: int,
    p: BlockPos,
    calibrated: bool,
) -> bool {
    &&& 0 <= n < seen.len()
    &&& cell(center, n) == p
    &&& seen[n] is Some
    &&& candidate(pos, p, seen[n]->0) == Some(calibrated)
}

/// A candidate was seen.
proof fn lemma_candidate_was_seen(
    pos: Vector3,
    center: BlockPos,
    seen: Seq<Option<Block>>,
    i: int,
)
    requires
        0 <= i < candidates(pos, center, seen).len(),
    ensures
        ({
            let (p, calibrated) = candidates(pos, center, seen)[i];
            exists|n: int| #[trigger] sensor_seen(pos, center, seen, n, p, calibrated)
        }),
    decreases seen.len(),
{
    let (p, calibrated) = candidates(pos, center, seen)[i];
    let before = candidates(pos, center, seen.drop_last());
    if i < before.len() {
        lemma_candidate_was_seen(pos, center, seen.drop_last(), i);
        let n = choose|n: int| #[trigger]
            sensor_seen(pos, center, seen.drop_last(), n, p, calibrated);
        assert(sensor_seen(pos, center, seen, n, p, calibrated));
    } else {
        assert(sensor_seen(pos, center, seen, seen.len() - 1, p, calibrated));
    }
}

/// What was seen is a candidate.
proof fn lemma_seen_is_candidate(
    pos: Vector3,
    center: BlockPos,
    seen: Seq<Option<Block>>,
    n: int,
    p: BlockPos,
    calibrated: bool,
)
    requires
        sensor_seen(pos, center, seen, n, p, calibrated),
    ensures
        candidates(pos, center, seen).contains((p, calibrated)),
    decreases seen.len(),
{
    let all = candidates(pos, center, seen);
    let before = candidates(pos, center, seen.drop_last());
    if n < seen.len() - 1 {
        assert(sensor_seen(pos, center, seen.drop_last(), n, p, calibrated));
        lemma_seen_is_candidate(pos, center, seen.drop_last(), n, p, calibrated);
        let i = choose|i: int| 0 <= i < before.len() && before[i] == (p, calibrated);
        assert(all[i] == (p, calibrated));
    } else {
        assert(all[before.len() as int] == (p, calibrated));
    }
}

/// The candidates are the sensors in range that stand in active chunks.
pub proof fn candidates_are_the_sensors_in_range(
    pos: Vector3,
    center: BlockPos,
    seen: Seq<Option<Block>>,
    p: BlockPos,
    calibrated: bool,
)
    ensures
        candidates(pos, center, seen).contains((p, calibrated)) <==> exists|n: int| #[trigger]
            sensor_seen(pos, center, seen, n, p, calibrated),
{
    let all = candidates(pos, center, seen);
    if all.contains((p, calibrated)) {
        let i = choose|i: int| 0 <= i < all.len() && all[i] == (p, calibrated);
        lemma_candidate_was_seen(pos, center, seen, i);
    }
    if exists|n: int| #[trigger] sensor_seen(pos, center, seen, n, p, calibrated) {
        let n = choose|n: int| #[trigger] sensor_seen(pos, center, seen, n, p, calibrated);
        lemma_seen_is_candidate(pos, center, seen, n, p, calibrated);
    }
}

/// No sensor in range is passed over: its position is looked at, and if its
/// chunk is active there, it is a candidate.
pub proof fn no_sensor_in_range_is_missed(
    pos: Vector3,
    seen: Seq<Option<Block>>,
    p: BlockPos,
    block: Block,
    calibrated: bool,
)
    requires
        BlockPos::holding(pos).has_room(16),
        seen.len() == CELLS,
        distance_to_center(pos, p).at_most(range_of(calibrated)),
        block.id == if calibrated {
            BlockId::CalibratedSculkSensor
        } else {
            BlockId::SculkSensor
        },
    ensures
        ({
            let center = BlockPos::holding(pos);
            exists|n: int|
                0 <= n < CELLS && #[trigger] cell(center, n) == p && in_reach(pos, p) && (seen[n]
                    == Some(block) ==> candidates(pos, center, seen).contains((p, calibrated)))
        }),
{
    let center = BlockPos::holding(pos);
    reveal(candidate);
    ranges_are_ordered();
    blocks_in_reach_are_near(pos, p);
    cube_holds_each_position_once(center, p);
    let n = choose|n: int| 0 <= n < CELLS && #[trigger] cell(center, n) == p;
    if seen[n] == Some(block) {
        assert(sensor_seen(pos, center, seen, n, p, calibrated));
        candidates_are_the_sensors_in_range(pos, center, seen, p, calibrated);
    }
}

/// Who hears an event, in a world of which `block_at` and `chunk_active` tell:
/// the sensors that stand in active chunks, within their own range, and no
/// others.
pub proof fn sensors_within_their_range_are_asked<F: Fn(BlockPos) -> Block, G: Fn(
    (i32, i32),
) -> bool>(
    pos: Vector3,
    seen: Seq<Option<Block>>,
    block_at: F,
    chunk_active: G,
    blocks: spec_fn(BlockPos) -> Block,
    active: spec_fn((i32, i32)) -> bool,
    p: BlockPos,
    calibrated: bool,
)
    requires
        BlockPos::holding(pos).has_room(16),
        !pos.x.nan(),
        !pos.y.nan(),
        !pos.z.nan(),
        seen.len() == CELLS,
        seen_by(pos, BlockPos::holding(pos), seen, block_at, chunk_active),
        tells(block_at, blocks),
        forall|c: (i32, i32), b: bool| #[trigger]
            call_ensures(chunk_active, (c,), b) ==> b == active(c),
    ensures
        candidates(pos, BlockPos::holding(pos), seen).contains((p, calibrated)) <==> {
            &&& blocks(p).id == if calibrated {
                BlockId::CalibratedSculkSensor
            } else {
                BlockId::SculkSensor
            }
            &&& distance_to_center(pos, p).at_most(range_of(calibrated))
            &&& active(p.chunk())
        },
{
    let center = BlockPos::holding(pos);
    distances_are_numbers(pos, p);
    ranges_are_ordered();
    candidates_are_the_sensors_in_range(pos, center, seen, p, calibrated);
    reveal(candidate);
    if candidates(pos, center, seen).contains((p, calibrated)) {
        let n = choose|n: int| #[trigger] sensor_seen(pos, center, seen, n, p, calibrated);
        assert(answered(cell(center, n), seen[n], block_at, chunk_active));
    }
    if blocks(p).id == (if calibrated {
        BlockId::CalibratedSculkSensor
    } else {
        BlockId::SculkSensor
    }) && distance_to_center(pos, p).at_most(range_of(calibrated)) && active(p.chunk()) {
        no_sensor_in_range_is_missed(pos, seen, p, blocks(p), calibrated);
        let n = choose|n: int|
            0 <= n < CELLS && #[trigger] cell(center, n) == p && in_reach(pos, p) && (seen[n]
                == Some(blocks(p)) ==> candidates(pos, center, seen).contains((p, calibrated)));
        assert(answered(cell(center, n), seen[n], block_at, chunk_active));
    }
}

/// No position is asked twice.
pub proof fn each_sensor_is_asked_once(pos: Vector3, center: BlockPos, seen: Seq<Option<Block>>)
    requires
        center.has_room(16),
        seen.len() <= CELLS,
    ensures
        forall|i: int, j: int|
            0 <= i < j < candidates(pos, center, seen).len() ==> (#[trigger] candidates(
                pos,
                center,
                seen,
            )[i]).0 != (#[trigger] candidates(pos, center, seen)[j]).0,
    decreases seen.len(),
{
    if seen.len() > 0 {
        let before = candidates(pos, center, seen.drop_last());
        let last = cell(center, seen.len() - 1);
        each_sensor_is_asked_once(pos, center, seen.drop_last());
        cube_holds_each_position_once(center, last);
        assert forall|i: int| 0 <= i < before.len() implies (#[trigger] before[i]).0 != last by {
            let (p, calibrated) = before[i];
            lemma_candidate_was_seen(pos, center, seen.drop_last(), i);
            let n = choose|n: int| #[trigger]
                sensor_seen(pos, center, seen.drop_last(), n, p, calibrated);
            assert(cell(center, n) == p);
        }
    }
}

/// A candidate lies within its own range, so that distance alone never makes
/// it ignore the event.
pub proof fn candidates_lie_within_their_range(
    pos: Vector3,
    p: BlockPos,
    block: Block,
    calibrated: bool,
)
    requires
        candidate(pos, p, block) == Some(calibrated),
    ensures
        !distance_to_center(pos, p).above(range_of(calibrated)),
        block.id == if calibrated {
            BlockId::CalibratedSculkSensor
        } else {
            BlockId::SculkSensor
        },
{
    reveal(candidate);
}

/// No sensor hears wardens and sculk, nor the quiet events of a sneaking
/// source, whatever block they happen in.
pub proof fn silent_sources_are_not_heard(
    event: GameEvent,
    source: VibrationSource,
    block: Block,
)
    ensures
        source.is_sculk_or_warden ==> !heard(event, source, block),
        source.is_sneaking && quiet_when_sneaking(event) ==> !heard(event, source, block),
        frequency_of(event) == 0 ==> !heard(event, source, block),
        heard(event, source, block) ==> 1 <= frequency_of(event) <= 15,
{
}

/// Who is listened to: every source but sculk and wardens, with every event that
/// has a frequency, except that sneaking silences six of them. In particular a
/// sneaking player is heard placing and breaking blocks.
pub proof fn all_but_silent_events_are_audible(event: GameEvent, source: VibrationSource)
    ensures
        audible(event, source) <==> {
            &&& !source.is_sculk_or_warden
            &&& frequency_of(event) != 0
            &&& source.is_sneaking ==> {
                &&& event != GameEvent::HitGround
                &&& event != GameEvent::ProjectileShoot
                &&& event != GameEvent::Step
                &&& event != GameEvent::Swim
                &&& event != GameEvent::ItemInteractStart
                &&& event != GameEvent::ItemInteractFinish
            }
        },
        frequency_of(event) == 0 <==> {
            ||| event == GameEvent::SculkSensorTendrilsClicking
            ||| event == GameEvent::Shriek
            ||| event == GameEvent::ItemInteractStart
            ||| event == GameEvent::JukeboxPlay
            ||| event == GameEvent::JukeboxStopPlay
        },
{
}

/// Whether a player sneaks makes a difference to six events only, and whether the
/// source is a player to none.
pub proof fn only_sneaking_and_sculk_matter_of_a_source(
    event: GameEvent,
    a: VibrationSource,
    b: VibrationSource,
)
    requires
        !a.is_sculk_or_warden,
        !b.is_sculk_or_warden,
        a.is_sneaking == b.is_sneaking || !(event is HitGround || event is ProjectileShoot
            || event is Step || event is Swim || event is ItemInteractStart
            || event is ItemInteractFinish),
    ensures
        audible(event, a) == audible(event, b),
{
}

/// Wool swallows the five events of things that meet it, of whoever is listened to,
/// and lets all others out; a block without that tag lets out everything.
pub proof fn wool_swallows_five_events(event: GameEvent, source: VibrationSource, block: Block)
    ensures
        heard(event, source, block) ==> audible(event, source),
        audible(event, source) && !block.dampens_vibrations ==> heard(event, source, block),
        audible(event, source) && block.dampens_vibrations ==> (heard(event, source, block) <==> {
            &&& event != GameEvent::BlockPlace
            &&& event != GameEvent::BlockDestroy
            &&& event != GameEvent::Step
            &&& event != GameEvent::HitGround
            &&& event != GameEvent::ProjectileLand
        }),
{
}

/// One position comes before another: by `x`, then by `y`, then by `z`.
pub open spec fn comes_before(p: BlockPos, q: BlockPos) -> bool {
    p.x < q.x || (p.x == q.x && (p.y < q.y || (p.y == q.y && p.z < q.z)))
}

/// The positions of the cube are counted in their order.
proof fn lemma_cells_in_order(center: BlockPos, n: int, m: int)
    requires
        center.has_room(16),
        0 <= n < m < CELLS,
    ensures
        comes_before(cell(center, n), cell(center, m)),
{
    reveal(cell);
    let (a, b, c) = (n / 1089, (n / 33) % 33, n % 33);
    let (d, e, f) = (m / 1089, (m / 33) % 33, m % 33);
    assert(n == 1089 * a + 33 * b + c);
    assert(m == 1089 * d + 33 * e + f);
}

/// Sensors are asked in the order of their positions.
pub proof fn sensors_are_asked_in_order(
    pos: Vector3,
    center: BlockPos,
    seen: Seq<Option<Block>>,
    i: int,
    j: int,
)
    requires
        center.has_room(16),
        seen.len() <= CELLS,
        0 <= i < j < candidates(pos, center, seen).len(),
    ensures
        comes_before(
            candidates(pos, center, seen)[i].0,
            candidates(pos, center, seen)[j].0,
        ),
    decreases seen.len(),
{
    let before = candidates(pos, center, seen.drop_last());
    if j < before.len() {
        sensors_are_asked_in_order(pos, center, seen.drop_last(), i, j);
    } else {
        let (p, calibrated) = before[i];
        lemma_candidate_was_seen(pos, center, seen.drop_last(), i);
        let n = choose|n: int| #[trigger]
            sensor_seen(pos, center, seen.drop_last(), n, p, calibrated);
        lemma_cells_in_order(center, n, seen.len() - 1);
    }
}

/// An event with a coordinate that is no number is beyond the range of no calibrated
/// sensor and within that of no normal one: of the sensors in the cube and in active
/// chunks, exactly the calibrated ones are asked.
pub proof fn without_a_place_calibrated_sensors_are_asked<F: Fn(BlockPos) -> Block, G: Fn(
    (i32, i32),
) -> bool>(
    pos: Vector3,
    seen: Seq<Option<Block>>,
    block_at: F,
    chunk_active: G,
    blocks: spec_fn(BlockPos) -> Block,
    active: spec_fn((i32, i32)) -> bool,
    p: BlockPos,
    calibrated: bool,
)
    requires
        BlockPos::holding(pos).has_room(16),
        pos.x.nan() || pos.y.nan() || pos.z.nan(),
        seen.len() == CELLS,
        seen_by(pos, BlockPos::holding(pos), seen, block_at, chunk_active),
        tells(block_at, blocks),
        forall|c: (i32, i32), b: bool| #[trigger]
            call_ensures(chunk_active, (c,), b) ==> b == active(c),
    ensures
        candidates(pos, BlockPos::holding(pos), seen).contains((p, calibrated)) <==> {
            let center = BlockPos::holding(pos);
            &&& calibrated
            &&& blocks(p).id == BlockId::CalibratedSculkSensor
            &&& active(p.chunk())
            &&& -16 <= p.x - center.x <= 16
            &&& -16 <= p.y - center.y <= 16
            &&& -16 <= p.z - center.z <= 16
        },
{
    let center = BlockPos::holding(pos);
    assert(distance_to_center(pos, p).nan());
    reveal(candidate);
    cube_holds_each_position_once(center, p);
    candidates_are_the_sensors_in_range(pos, center, seen, p, calibrated);
    if candidates(pos, center, seen).contains((p, calibrated)) {
        let n = choose|n: int| #[trigger] sensor_seen(pos, center, seen, n, p, calibrated);
        assert(answered(cell(center, n), seen[n], block_at, chunk_active));
    }
    if calibrated && blocks(p).id == BlockId::CalibratedSculkSensor && active(p.chunk()) && -16
        <= p.x - center.x <= 16 && -16 <= p.y - center.y <= 16 && -16 <= p.z - center.z <= 16 {
        let n = choose|n: int| 0 <= n < CELLS && #[trigger] cell(center, n) == p;
        assert(answered(cell(center, n), seen[n], block_at, chunk_active));
        assert(sensor_seen(pos, center, seen, n, p, calibrated));
    }
}

} // verus!
