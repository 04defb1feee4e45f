use sculk_vibrations::block::{source_dampens_vibrations, Block, BlockId};
use sculk_vibrations::occlusion::is_vibration_occluded;
use sculk_vibrations::position::BlockPos;

fn air() -> Block {
    Block {
        id: BlockId::Other,
        dampens_vibrations: false,
        occludes_vibration_signals: false,
        vibration_resonator: false,
    }
}

fn wool() -> Block {
    Block { dampens_vibrations: true, ..air() }
}

fn at(x: i32, y: i32, z: i32) -> BlockPos {
    BlockPos { x, y, z }
}

/// The coordinate of the ray after `n / d` of the way, rounded down.
fn floor_at(a: i32, b: i32, n: i64, d: i64) -> i32 {
    let (a, b) = (i64::from(a), i64::from(b));
    ((2 * a + 1) * d + 2 * (b - a) * n).div_euclid(2 * d) as i32
}

/// The blocks through whose inside the ray passes, found halfway between any two
/// places where it leaves some layer.
fn blocks_on_ray(from: BlockPos, to: BlockPos) -> Vec<BlockPos> {
    let lengths = [to.x - from.x, to.y - from.y, to.z - from.z];
    let d: i64 = lengths.iter().map(|l| i64::from(l.abs().max(1))).product::<i64>() * 4;
    let mut places = vec![0, d];
    for l in lengths {
        let l = i64::from(l.abs());
        for k in 0..l {
            places.push((2 * k + 1) * (d / (2 * l)));
        }
    }
    places.sort();
    places.dedup();
    let mut found = Vec::new();
    for pair in places.windows(2) {
        let n = pair[0] + pair[1];
        found.push(at(
            floor_at(from.x, to.x, n, 2 * d),
            floor_at(from.y, to.y, n, 2 * d),
            floor_at(from.z, to.z, n, 2 * d),
        ));
    }
    found.retain(|p| *p != from && *p != to);
    found
}

/// The blocks into which points fall that are taken every half block, in native
/// arithmetic.
fn blocks_at_samples(from: BlockPos, to: BlockPos) -> Vec<BlockPos> {
    let center =
        |p: BlockPos| [f64::from(p.x) + 0.5, f64::from(p.y) + 0.5, f64::from(p.z) + 0.5];
    let (start, end) = (center(from), center(to));
    let d = [end[0] - start[0], end[1] - start[1], end[2] - start[2]];
    let len = (d[0] * d[0] + d[1] * d[1] + d[2] * d[2]).sqrt();
    let mut found = Vec::new();
    if from == to || len < f64::EPSILON {
        return found;
    }
    let steps = (len * 2.0).ceil().max(1.0) as i32;
    for i in 1..steps {
        let t = f64::from(i) / f64::from(steps);
        found.push(at(
            (start[0] + d[0] * t).floor() as i32,
            (start[1] + d[1] * t).floor() as i32,
            (start[2] + d[2] * t).floor() as i32,
        ));
    }
    found.retain(|p| *p != from && *p != to);
    found
}

fn blocks_on(from: BlockPos, to: BlockPos) -> Vec<BlockPos> {
    let mut found = blocks_on_ray(from, to);
    found.extend(blocks_at_samples(from, to));
    found.sort_by_key(|p| (p.x, p.y, p.z));
    found.dedup();
    found
}

#[test]
fn wool_between_event_and_sensor_occludes() {
    let from = at(0, 64, 0);
    let to = at(5, 64, 0);
    let wall = |p: BlockPos| if p == at(2, 64, 0) { wool() } else { air() };
    assert!(is_vibration_occluded(from, to, &wall));
    let beside = |p: BlockPos| if p == at(2, 65, 0) { wool() } else { air() };
    assert!(!is_vibration_occluded(from, to, &beside));
    let tagged = |p: BlockPos| {
        if p == at(3, 64, 0) {
            Block { occludes_vibration_signals: true, ..air() }
        } else {
            air()
        }
    };
    assert!(is_vibration_occluded(from, to, &tagged));
    assert!(!is_vibration_occluded(from, to, &|_: BlockPos| air()));
}

#[test]
fn the_ends_of_the_way_do_not_occlude() {
    let from = at(-3, 10, 7);
    let to = at(4, 12, 1);
    let ends = |p: BlockPos| if p == from || p == to { wool() } else { air() };
    assert!(!is_vibration_occluded(from, to, &ends));
    assert!(!is_vibration_occluded(from, from, &|_: BlockPos| wool()));
    for to in [at(-2, 10, 7), at(-4, 10, 7), at(-3, 11, 7), at(-3, 9, 7), at(-3, 10, 8)] {
        assert!(!is_vibration_occluded(from, to, &|_: BlockPos| wool()));
    }
}

#[test]
fn no_block_that_the_ray_passes_through_is_stepped_over() {
    let from = at(0, 0, 0);
    let to = at(3, 2, 0);
    let wall = |p: BlockPos| if p == at(1, 0, 0) { wool() } else { air() };
    assert!(is_vibration_occluded(from, to, &wall));
    assert!(is_vibration_occluded(to, from, &wall));
    assert_eq!(
        blocks_on(from, to),
        vec![at(1, 0, 0), at(1, 1, 0), at(2, 1, 0), at(2, 2, 0)]
    );
    let beside = |p: BlockPos| if p == at(0, 1, 0) { wool() } else { air() };
    assert!(!is_vibration_occluded(from, to, &beside));
}

#[test]
fn the_way_is_the_ray_and_its_samples() {
    let from = at(3, -60, -11);
    for n in 0..4000 {
        let to = at(
            from.x + (n * 7) % 33 - 16,
            from.y + (n * 11) % 31 - 15,
            from.z + (n * 5) % 29 - 14,
        );
        let way = blocks_on(from, to);
        let seen = std::cell::RefCell::new(Vec::new());
        assert!(!is_vibration_occluded(from, to, &|p: BlockPos| {
            seen.borrow_mut().push(p);
            air()
        }));
        let mut seen = seen.into_inner();
        seen.sort_by_key(|p| (p.x, p.y, p.z));
        seen.dedup();
        assert_eq!(seen, way);
        for p in &way {
            let wall = |q: BlockPos| if q == *p { wool() } else { air() };
            assert!(is_vibration_occluded(from, to, &wall));
            assert!(p.x >= from.x.min(to.x) && p.x <= from.x.max(to.x));
            assert!(p.y >= from.y.min(to.y) && p.y <= from.y.max(to.y));
            assert!(p.z >= from.z.min(to.z) && p.z <= from.z.max(to.z));
        }
        for p in blocks_on_ray(from, to) {
            let wall = |q: BlockPos| if q == p { wool() } else { air() };
            assert!(is_vibration_occluded(to, from, &wall));
        }
    }
}

#[test]
fn along_an_axis_the_blocks_between_occlude() {
    let from = at(5, 6, 7);
    for step in [-9i32, -2, 2, 9] {
        for axis in 0..3 {
            let moved = |n: i32| match axis {
                0 => at(5 + n, 6, 7),
                1 => at(5, 6 + n, 7),
                _ => at(5, 6, 7 + n),
            };
            for n in -12i32..=12 {
                let wall = |p: BlockPos| if p == moved(n) { wool() } else { air() };
                let inside = n != 0 && n.signum() == step.signum() && n.abs() < step.abs();
                assert_eq!(is_vibration_occluded(from, moved(step), &wall), inside);
            }
        }
    }
}

#[test]
fn a_block_that_is_only_touched_counts_where_a_sample_falls() {
    // This ray crosses the edge that four blocks share between two samples.
    let above = |p: BlockPos| if p == at(1, 1, 0) { wool() } else { air() };
    assert!(!is_vibration_occluded(at(0, 1, 0), at(1, 0, 0), &above));
    assert!(!is_vibration_occluded(at(1, 0, 0), at(0, 1, 0), &above));
    // And this one the corner that eight blocks share, with a sample there.
    let corner = |p: BlockPos| if p == at(1, 1, 1) { wool() } else { air() };
    assert!(is_vibration_occluded(at(0, 1, 0), at(1, 0, 1), &corner));
    let other = |p: BlockPos| if p == at(0, 0, 0) { wool() } else { air() };
    assert!(!is_vibration_occluded(at(0, 1, 0), at(1, 0, 1), &other));
    // Diagonally, nothing lies between two blocks.
    assert!(!is_vibration_occluded(at(0, 0, 0), at(1, 1, 0), &|_: BlockPos| wool()));
    assert!(!is_vibration_occluded(at(0, 0, 0), at(1, 1, 1), &|_: BlockPos| wool()));
}

#[test]
fn the_ends_of_all_coordinates() {
    let far = |x: i32| at(x, i32::MAX, i32::MIN);
    let (from, to) = (far(i32::MIN), far(i32::MIN + 3));
    assert!(is_vibration_occluded(from, to, &|p: BlockPos| {
        if p == far(i32::MIN + 2) { wool() } else { air() }
    }));
    let corners = (at(i32::MIN, i32::MIN, i32::MIN), at(i32::MAX, i32::MAX, i32::MAX));
    assert!(is_vibration_occluded(corners.0, corners.1, &|p: BlockPos| {
        if p.x == i32::MIN + 1000 { wool() } else { air() }
    }));
}

#[test]
fn only_wool_dampens_its_own_events() {
    assert!(source_dampens_vibrations(&wool()));
    assert!(!source_dampens_vibrations(&air()));
    assert!(!source_dampens_vibrations(&Block { occludes_vibration_signals: true, ..air() }));
}
