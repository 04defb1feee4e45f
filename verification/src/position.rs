//! Block positions, points in space, and directions.
use vstd::arithmetic::div_mod::*;
use vstd::arithmetic::power2::*;
use vstd::prelude::*;

use crate::binary64::Binary64;

verus! {

/// A point in space.
#[derive(Clone, Copy, Debug, PartialEq, Eq, Structural)]
pub struct Vector3 {
    pub x: Binary64,
    pub y: Binary64,
    pub z: Binary64,
}

/// The position of a block.
#[derive(Clone, Copy, Debug, PartialEq, Eq, Structural)]
pub struct BlockPos {
    pub x: i32,
    pub y: i32,
    pub z: i32,
}

/// The six sides of a block.
#[derive(Clone, Copy, Debug, PartialEq, Eq, Structural)]
pub enum BlockDirection {
    Down,
    Up,
    North,
    South,
    West,
    East,
}

/// The four horizontal directions that a block can face.
#[derive(Clone, Copy, Debug, PartialEq, Eq, Structural)]
pub enum HorizontalFacing {
    North,
    South,
    West,
    East,
}

impl BlockPos {
    /// The position that lies `(dx, dy, dz)` away, in unbounded coordinates.
    pub open spec fn moved(self, dx: int, dy: int, dz: int) -> (int, int, int) {
        (self.x + dx, self.y + dy, self.z + dz)
    }

    /// The position has these coordinates.
    pub open spec fn is_at(self, at: (int, int, int)) -> bool {
        (self.x as int, self.y as int, self.z as int) == at
    }

    /// The coordinates are those of a block.
    pub open spec fn fits(at: (int, int, int)) -> bool {
        &&& i32::MIN <= at.0 <= i32::MAX
        &&& i32::MIN <= at.1 <= i32::MAX
        &&& i32::MIN <= at.2 <= i32::MAX
    }

    /// The coordinates of the neighbor on one side.
    pub open spec fn beside(self, direction: BlockDirection) -> (int, int, int) {
        let d = direction.offset_by();
        self.moved(d.0, d.1, d.2)
    }

    /// Every position up to `n` blocks away has coordinates of 32 bits.
    pub open spec fn has_room(self, n: int) -> bool {
        &&& i32::MIN + n <= self.x <= i32::MAX - n
        &&& i32::MIN + n <= self.y <= i32::MAX - n
        &&& i32::MIN + n <= self.z <= i32::MAX - n
    }

    /// The coordinate of a block's center: half a block above its own.
    pub open spec fn center_of(v: int) -> Binary64 {
        Binary64::of_scaled(2 * v + 1, 1073)
    }

    /// The block's center.
    pub open spec fn centered(self) -> Vector3 {
        Vector3 {
            x: BlockPos::center_of(self.x as int),
            y: BlockPos::center_of(self.y as int),
            z: BlockPos::center_of(self.z as int),
        }
    }

    /// The block that holds a point.
    pub open spec fn holding(point: Vector3) -> BlockPos {
        BlockPos {
            x: point.x.floor_i32() as i32,
            y: point.y.floor_i32() as i32,
            z: point.z.floor_i32() as i32,
        }
    }

    fn center_coordinate(v: i32) -> (r: Binary64)
        ensures
            r == BlockPos::center_of(v as int),
    {
        Binary64::from_scaled(2 * (v as i64) + 1, 1073)
    }

    /// The block's center.
    pub fn to_centered(self) -> (r: Vector3)
        ensures
            r == self.centered(),
    {
        Vector3 {
            x: BlockPos::center_coordinate(self.x),
            y: BlockPos::center_coordinate(self.y),
            z: BlockPos::center_coordinate(self.z),
        }
    }

    /// The block that holds a point.
    pub fn containing(point: Vector3) -> (r: BlockPos)
        ensures
            r == BlockPos::holding(point),
    {
        BlockPos {
            x: point.x.to_floor_i32(),
            y: point.y.to_floor_i32(),
            z: point.z.to_floor_i32(),
        }
    }

    /// The chunk column of the block: chunks are 16 blocks wide.
    pub open spec fn chunk(self) -> (i32, i32) {
        ((self.x as int / 16) as i32, (self.z as int / 16) as i32)
    }

    /// The chunk column of the block.
    pub fn chunk_position(self) -> (r: (i32, i32))
        ensures
            r == self.chunk(),
            r.0 == self.x as int / 16,
            r.1 == self.z as int / 16,
    {
        (chunk_coordinate(self.x), chunk_coordinate(self.z))
    }

    /// Whether every position up to `n` blocks away has coordinates of 32 bits.
    pub fn leaves_room(self, n: i32) -> (r: bool)
        ensures
            r == self.has_room(n as int),
    {
        let low: i64 = i32::MIN as i64 + n as i64;
        let high: i64 = i32::MAX as i64 - n as i64;
        low <= self.x as i64 && self.x as i64 <= high && low <= self.y as i64 && self.y as i64
            <= high && low <= self.z as i64 && self.z as i64 <= high
    }

    /// Whether there is a neighbor on one side: none lies beyond the greatest and
    /// the least coordinates.
    pub fn has_neighbor(self, direction: BlockDirection) -> (r: bool)
        ensures
            r == BlockPos::fits(self.beside(direction)),
    {
        match direction {
            BlockDirection::Down => self.y > i32::MIN,
            BlockDirection::Up => self.y < i32::MAX,
            BlockDirection::North => self.z > i32::MIN,
            BlockDirection::South => self.z < i32::MAX,
            BlockDirection::West => self.x > i32::MIN,
            BlockDirection::East => self.x < i32::MAX,
        }
    }

    /// The neighbor on one side.
    pub fn offset(self, direction: BlockDirection) -> (r: BlockPos)
        requires
            BlockPos::fits(self.beside(direction)),
        ensures
            r.is_at(self.beside(direction)),
    {
        match direction {
            BlockDirection::Down => BlockPos { x: self.x, y: self.y - 1, z: self.z },
            BlockDirection::Up => BlockPos { x: self.x, y: self.y + 1, z: self.z },
            BlockDirection::North => BlockPos { x: self.x, y: self.y, z: self.z - 1 },
            BlockDirection::South => BlockPos { x: self.x, y: self.y, z: self.z + 1 },
            BlockDirection::West => BlockPos { x: self.x - 1, y: self.y, z: self.z },
            BlockDirection::East => BlockPos { x: self.x + 1, y: self.y, z: self.z },
        }
    }
}

/// `v / 16`, rounded down.
fn chunk_coordinate(v: i32) -> (r: i32)
    ensures
        r == v as int / 16,
{
    let up: u64 = (v as i64 + 0x1_0000_0000) as u64;
    ((up / 16) as i64 - 0x1000_0000) as i32
}

impl BlockDirection {
    pub open spec fn offset_by(self) -> (int, int, int) {
        match self {
            BlockDirection::Down => (0, -1, 0),
            BlockDirection::Up => (0, 1, 0),
            BlockDirection::North => (0, 0, -1),
            BlockDirection::South => (0, 0, 1),
            BlockDirection::West => (-1, 0, 0),
            BlockDirection::East => (1, 0, 0),
        }
    }

    /// All directions, in the order in which neighbors are visited.
    pub open spec fn every() -> Seq<BlockDirection> {
        seq![
            BlockDirection::Down,
            BlockDirection::Up,
            BlockDirection::North,
            BlockDirection::South,
            BlockDirection::West,
            BlockDirection::East,
        ]
    }

    /// All directions, in the order in which neighbors are visited.
    pub fn all() -> (r: Vec<BlockDirection>)
        ensures
            r@ == BlockDirection::every(),
    {
        vec![
            BlockDirection::Down,
            BlockDirection::Up,
            BlockDirection::North,
            BlockDirection::South,
            BlockDirection::West,
            BlockDirection::East,
        ]
    }

    /// The direction that leads back.
    pub fn opposite(self) -> (r: BlockDirection)
        ensures
            r.offset_by().0 == -self.offset_by().0,
            r.offset_by().1 == -self.offset_by().1,
            r.offset_by().2 == -self.offset_by().2,
    {
        match self {
            BlockDirection::Down => BlockDirection::Up,
            BlockDirection::Up => BlockDirection::Down,
            BlockDirection::North => BlockDirection::South,
            BlockDirection::South => BlockDirection::North,
            BlockDirection::West => BlockDirection::East,
            BlockDirection::East => BlockDirection::West,
        }
    }
}

impl HorizontalFacing {
    /// The facing that looks back.
    pub open spec fn reversed(self) -> HorizontalFacing {
        match self {
            HorizontalFacing::North => HorizontalFacing::South,
            HorizontalFacing::South => HorizontalFacing::North,
            HorizontalFacing::West => HorizontalFacing::East,
            HorizontalFacing::East => HorizontalFacing::West,
        }
    }

    /// The facing that looks back.
    pub fn opposite(self) -> (r: HorizontalFacing)
        ensures
            r == self.reversed(),
    {
        match self {
            HorizontalFacing::North => HorizontalFacing::South,
            HorizontalFacing::South => HorizontalFacing::North,
            HorizontalFacing::West => HorizontalFacing::East,
            HorizontalFacing::East => HorizontalFacing::West,
        }
    }

    /// The direction of the same name.
    pub open spec fn direction(self) -> BlockDirection {
        match self {
            HorizontalFacing::North => BlockDirection::North,
            HorizontalFacing::South => BlockDirection::South,
            HorizontalFacing::West => BlockDirection::West,
            HorizontalFacing::East => BlockDirection::East,
        }
    }

    /// The direction of the same name.
    pub fn to_block_direction(self) -> (r: BlockDirection)
        ensures
            r == self.direction(),
    {
        match self {
            HorizontalFacing::North => BlockDirection::North,
            HorizontalFacing::South => BlockDirection::South,
            HorizontalFacing::West => BlockDirection::West,
            HorizontalFacing::East => BlockDirection::East,
        }
    }
}

/// Who visits the neighbors in all directions visits each of the six once: every
/// direction is among them, none twice, and different ones lead to different
/// neighbors.
pub proof fn each_neighbor_is_visited_once(p: BlockPos, d: BlockDirection, e: BlockDirection)
    ensures
        BlockDirection::every().contains(d),
        BlockDirection::every().no_duplicates(),
        d != e ==> p.beside(d) != p.beside(e),
        p.beside(d) != (p.x as int, p.y as int, p.z as int),
{
    let all = BlockDirection::every();
    match d {
        BlockDirection::Down => assert(all[0] == d),
        BlockDirection::Up => assert(all[1] == d),
        BlockDirection::North => assert(all[2] == d),
        BlockDirection::South => assert(all[3] == d),
        BlockDirection::West => assert(all[4] == d),
        BlockDirection::East => assert(all[5] == d),
    }
}

/// Where the neighbors of a block lie: north is toward lesser `z`, west toward
/// lesser `x`.
pub proof fn neighbors_lie_one_block_away(p: BlockPos)
    ensures
        p.beside(BlockDirection::Down) == (p.x as int, p.y - 1, p.z as int),
        p.beside(BlockDirection::Up) == (p.x as int, p.y + 1, p.z as int),
        p.beside(BlockDirection::North) == (p.x as int, p.y as int, p.z - 1),
        p.beside(BlockDirection::South) == (p.x as int, p.y as int, p.z + 1),
        p.beside(BlockDirection::West) == (p.x - 1, p.y as int, p.z as int),
        p.beside(BlockDirection::East) == (p.x + 1, p.y as int, p.z as int),
{
}

/// A block that faces some way has its neighbor there, and looks back to where it
/// would come from.
pub proof fn facings_lead_to_neighbors(p: BlockPos, facing: HorizontalFacing)
    ensures
        facing is North ==> p.beside(facing.direction()) == (p.x as int, p.y as int, p.z - 1),
        facing is South ==> p.beside(facing.direction()) == (p.x as int, p.y as int, p.z + 1),
        facing is West ==> p.beside(facing.direction()) == (p.x - 1, p.y as int, p.z as int),
        facing is East ==> p.beside(facing.direction()) == (p.x + 1, p.y as int, p.z as int),
        facing.reversed().reversed() == facing,
        forall|q: BlockPos| #[trigger]
            q.is_at(p.beside(facing.direction())) ==> p.is_at(
                q.beside(facing.reversed().direction()),
            ),
{
}

/// Coordinates fit exactly where there is a block that has them.
pub proof fn coordinates_that_fit_are_of_a_block(at: (int, int, int))
    ensures
        BlockPos::fits(at) <==> exists|p: BlockPos| #[trigger] p.is_at(at),
{
    if BlockPos::fits(at) {
        let p = BlockPos { x: at.0 as i32, y: at.1 as i32, z: at.2 as i32 };
        assert(p.is_at(at));
    }
}

/// There is room for `n` blocks around a position exactly where every position up
/// to `n` blocks away fits.
pub proof fn room_is_for_every_position_around(p: BlockPos, n: int)
    requires
        n >= 0,
    ensures
        p.has_room(n) <==> forall|dx: int, dy: int, dz: int|
            -n <= dx <= n && -n <= dy <= n && -n <= dz <= n ==> #[trigger] BlockPos::fits(
                (p.x + dx, p.y + dy, p.z + dz),
            ),
{
    if forall|dx: int, dy: int, dz: int|
        -n <= dx <= n && -n <= dy <= n && -n <= dz <= n ==> #[trigger] BlockPos::fits(
            (p.x + dx, p.y + dy, p.z + dz),
        ) {
        assert(BlockPos::fits((p.x + n, p.y + n, p.z + n)));
        assert(BlockPos::fits((p.x + (-n), p.y + (-n), p.z + (-n))));
    }
}

/// A chunk column holds the blocks whose coordinates begin at sixteen times its own.
pub proof fn chunks_hold_sixteen_blocks_each_way(p: BlockPos)
    ensures
        16 * p.chunk().0 <= p.x < 16 * p.chunk().0 + 16,
        16 * p.chunk().1 <= p.z < 16 * p.chunk().1 + 16,
{
}

/// A coordinate of the block that holds a point: the greatest integer that is not
/// above that of the point. Beyond all blocks it is that of the outermost, and
/// where there is no number it is 0.
pub open spec fn holds(point: Binary64, block: i32) -> bool {
    let u = pow2(1074) as int;
    if point.nan() {
        block == 0
    } else if point.infinite() {
        block == if point.negative() {
            i32::MIN
        } else {
            i32::MAX
        }
    } else {
        &&& block * u <= point.units() || block == i32::MIN
        &&& point.units() < (block + 1) * u || block == i32::MAX
    }
}

proof fn lemma_floor_holds(point: Binary64)
    ensures
        holds(point, point.floor_i32() as i32),
{
    let u = pow2(1074) as int;
    let v = point.units();
    let q = v / u;
    lemma_pow2_pos(1074);
    lemma_fundamental_div_mod(v, u);
    lemma_mod_bound(v, u);
    let rest = v % u;
    let block = point.floor_i32();
    if point.finite() {
        assert(q * u <= v < (q + 1) * u) by (nonlinear_arith)
            requires
                v == u * q + rest,
                0 <= rest < u,
        ;
        assert(block <= q ==> block * u <= q * u) by (nonlinear_arith)
            requires
                u > 0,
        ;
        assert(block >= q ==> (block + 1) * u >= (q + 1) * u) by (nonlinear_arith)
            requires
                u > 0,
        ;
    }
}

/// A point lies in the block that holds it.
pub proof fn points_lie_in_their_block(point: Vector3)
    ensures
        holds(point.x, BlockPos::holding(point).x),
        holds(point.y, BlockPos::holding(point).y),
        holds(point.z, BlockPos::holding(point).z),
{
    lemma_floor_holds(point.x);
    lemma_floor_holds(point.y);
    lemma_floor_holds(point.z);
}

} // verus!
