use sculk_vibrations::binary64::Binary64;
use sculk_vibrations::position::{BlockDirection, BlockPos, HorizontalFacing, Vector3};

fn point(x: f64, y: f64, z: f64) -> Vector3 {
    Vector3 {
        x: Binary64 { bits: x.to_bits() },
        y: Binary64 { bits: y.to_bits() },
        z: Binary64 { bits: z.to_bits() },
    }
}

fn at(x: i32, y: i32, z: i32) -> BlockPos {
    BlockPos { x, y, z }
}

#[test]
fn centers_lie_half_a_block_up() {
    let samples = [0, 1, -1, 7, -8, 1000, -29_999_984, i32::MAX, i32::MIN];
    for v in samples {
        let c = BlockPos { x: v, y: -5, z: 12 }.to_centered();
        assert_eq!(f64::from_bits(c.x.bits), f64::from(v) + 0.5);
        assert_eq!(f64::from_bits(c.y.bits), -4.5);
        assert_eq!(f64::from_bits(c.z.bits), 12.5);
    }
}

#[test]
fn points_lie_in_the_block_below_them() {
    let samples = [
        0.0,
        -0.0,
        0.999,
        -0.001,
        -1.0,
        63.5,
        -63.5,
        1e9,
        -1e9,
        1e300,
        -1e300,
        f64::NAN,
        f64::INFINITY,
        f64::NEG_INFINITY,
        2147483647.0,
        2147483648.0,
        -2147483648.5,
    ];
    for v in samples {
        let p = BlockPos::containing(point(v, 1.25, -1.25));
        assert_eq!(p.x, v.floor() as i32, "{}", v);
        assert_eq!(p.y, 1);
        assert_eq!(p.z, -2);
    }
}

#[test]
fn a_center_lies_in_its_own_block() {
    for p in [
        BlockPos { x: 0, y: 64, z: 0 },
        BlockPos { x: -17, y: -64, z: 31 },
        BlockPos { x: i32::MIN, y: i32::MAX, z: -1 },
    ] {
        assert_eq!(BlockPos::containing(p.to_centered()), p);
    }
}

#[test]
fn chunks_are_sixteen_blocks_wide() {
    assert_eq!(BlockPos { x: 0, y: 0, z: 15 }.chunk_position(), (0, 0));
    assert_eq!(BlockPos { x: 16, y: 0, z: 31 }.chunk_position(), (1, 1));
    assert_eq!(BlockPos { x: -1, y: 0, z: -16 }.chunk_position(), (-1, -1));
    assert_eq!(BlockPos { x: -17, y: 0, z: 100 }.chunk_position(), (-2, 6));
    let far = BlockPos { x: i32::MIN, y: 0, z: i32::MAX };
    assert_eq!(far.chunk_position(), (i32::MIN >> 4, i32::MAX >> 4));
}

#[test]
fn neighbors_and_the_way_back() {
    let p = BlockPos { x: 3, y: -2, z: 9 };
    let all = BlockDirection::all();
    assert_eq!(
        all,
        vec![
            BlockDirection::Down,
            BlockDirection::Up,
            BlockDirection::North,
            BlockDirection::South,
            BlockDirection::West,
            BlockDirection::East,
        ]
    );
    assert_eq!(p.offset(BlockDirection::Down), BlockPos { x: 3, y: -3, z: 9 });
    assert_eq!(p.offset(BlockDirection::North), BlockPos { x: 3, y: -2, z: 8 });
    assert_eq!(p.offset(BlockDirection::East), BlockPos { x: 4, y: -2, z: 9 });
    for d in all {
        assert_eq!(p.offset(d).offset(d.opposite()), p);
        assert_ne!(p.offset(d), p);
    }
}

#[test]
fn facings_are_directions() {
    let pairs = [
        (HorizontalFacing::North, BlockDirection::North),
        (HorizontalFacing::South, BlockDirection::South),
        (HorizontalFacing::West, BlockDirection::West),
        (HorizontalFacing::East, BlockDirection::East),
    ];
    for (facing, direction) in pairs {
        assert_eq!(facing.to_block_direction(), direction);
        assert_eq!(facing.opposite().to_block_direction(), direction.opposite());
        assert_eq!(facing.opposite().opposite(), facing);
    }
}

#[test]
fn room_ends_where_coordinates_do() {
    let middle = at(0, 64, -3);
    assert!(middle.leaves_room(16) && middle.leaves_room(0) && middle.leaves_room(-5));
    assert!(!middle.leaves_room(i32::MAX));
    for v in [i32::MAX - 15, i32::MAX, i32::MIN + 15, i32::MIN] {
        assert!(!at(v, 0, 0).leaves_room(16));
        assert!(!at(0, v, 0).leaves_room(16));
        assert!(!at(0, 0, v).leaves_room(16));
        assert!(at(v, v, v).leaves_room(0));
    }
    for v in [i32::MAX - 16, i32::MIN + 16] {
        assert!(at(v, v, v).leaves_room(16));
    }
}

#[test]
fn neighbors_end_where_coordinates_do() {
    let top = at(i32::MAX, i32::MAX, i32::MAX);
    let bottom = at(i32::MIN, i32::MIN, i32::MIN);
    for (d, upward) in [
        (BlockDirection::Down, false),
        (BlockDirection::Up, true),
        (BlockDirection::North, false),
        (BlockDirection::South, true),
        (BlockDirection::West, false),
        (BlockDirection::East, true),
    ] {
        assert_eq!(top.has_neighbor(d), !upward);
        assert_eq!(bottom.has_neighbor(d), upward);
        assert!(at(1, 2, 3).has_neighbor(d));
    }
}

#[test]
fn six_neighbors_are_visited() {
    let p = at(-1, 0, 5);
    let mut seen: Vec<BlockPos> = Vec::new();
    for d in BlockDirection::all() {
        let q = p.offset(d);
        assert!(q != p && !seen.contains(&q));
        seen.push(q);
    }
    assert_eq!(seen.len(), 6);
}
