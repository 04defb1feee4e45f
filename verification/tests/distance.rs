use sculk_vibrations::binary64::Binary64;
use sculk_vibrations::distance::{
    center_distance, redstone_strength, sensor_range, travel_ticks, CALIBRATED_SCULK_SENSOR_RANGE,
    SCULK_SENSOR_RANGE,
};
use sculk_vibrations::position::{BlockPos, Vector3};

fn wrap(v: f64) -> Binary64 {
    Binary64 { bits: v.to_bits() }
}

fn native_strength(distance: f64, range: f64) -> u8 {
    if range <= 0.0 {
        return 1;
    }
    let v = 15.0 - ((15.0 / range) * distance).floor();
    v.max(1.0).min(15.0) as u8
}

fn native_distance(pos: [f64; 3], block: BlockPos) -> f64 {
    let dx = pos[0] - (f64::from(block.x) + 0.5);
    let dy = pos[1] - (f64::from(block.y) + 0.5);
    let dz = pos[2] - (f64::from(block.z) + 0.5);
    (dx * dx + dy * dy + dz * dz).sqrt()
}

#[test]
fn ranges_of_both_sensors() {
    assert_eq!(SCULK_SENSOR_RANGE, 8);
    assert_eq!(CALIBRATED_SCULK_SENSOR_RANGE, 16);
    assert_eq!(f64::from_bits(sensor_range(false).bits), 8.0);
    assert_eq!(f64::from_bits(sensor_range(true).bits), 16.0);
}

#[test]
fn strength_falls_from_fifteen_to_one() {
    let eight = sensor_range(false);
    assert_eq!(redstone_strength(wrap(0.0), eight), 15);
    assert_eq!(redstone_strength(wrap(0.5), eight), 15);
    assert_eq!(redstone_strength(wrap(1.0), eight), 14);
    assert_eq!(redstone_strength(wrap(4.0), eight), 8);
    assert_eq!(redstone_strength(wrap(7.0), eight), 2);
    assert_eq!(redstone_strength(wrap(8.0), eight), 1);
    assert_eq!(redstone_strength(wrap(9.0), eight), 1);
    let sixteen = sensor_range(true);
    assert_eq!(redstone_strength(wrap(1.0), sixteen), 15);
    assert_eq!(redstone_strength(wrap(8.0), sixteen), 8);
    assert_eq!(redstone_strength(wrap(16.0), sixteen), 1);
    let mut last = 15;
    for i in 0..400 {
        let s = redstone_strength(wrap(f64::from(i) / 16.0), sixteen);
        assert!(s <= last && s >= 1);
        last = s;
    }
}

#[test]
fn strength_at_odd_values() {
    let values = [
        0.0,
        -0.0,
        1.0,
        -1.0,
        -3.5,
        1e300,
        -1e300,
        1e-300,
        f64::NAN,
        f64::INFINITY,
        f64::NEG_INFINITY,
        8.0,
        16.0,
        5e-324,
    ];
    for distance in values {
        for range in values {
            assert_eq!(
                redstone_strength(wrap(distance), wrap(range)),
                native_strength(distance, range),
                "{} {}",
                distance,
                range
            );
        }
    }
}

#[test]
fn distances_to_centers() {
    let d = center_distance(
        Vector3 { x: wrap(0.5), y: wrap(0.5), z: wrap(0.5) },
        BlockPos { x: 3, y: 4, z: 0 },
    );
    assert_eq!(f64::from_bits(d.bits), 5.0);
    let mut seed: u64 = 88172645463325252;
    for _ in 0..20_000 {
        let mut pos = [0.0; 3];
        for c in pos.iter_mut() {
            seed ^= seed << 13;
            seed ^= seed >> 7;
            seed ^= seed << 17;
            *c = (seed % 400_000_000) as f64 / 7_000_000.0 - 30.0;
        }
        let block = BlockPos {
            x: (seed % 41) as i32 - 20,
            y: (seed / 41 % 41) as i32 - 20,
            z: (seed / 1681 % 41) as i32 - 20,
        };
        let d = center_distance(
            Vector3 { x: wrap(pos[0]), y: wrap(pos[1]), z: wrap(pos[2]) },
            block,
        );
        let native = native_distance(pos, block);
        assert_eq!(d.bits, native.to_bits());
        for range in [8.0, 16.0] {
            assert_eq!(redstone_strength(d, wrap(range)), native_strength(native, range));
        }
        assert_eq!(travel_ticks(d), native.ceil().max(1.0) as u32);
    }
}

#[test]
fn a_block_takes_a_tick() {
    assert_eq!(travel_ticks(wrap(0.0)), 1);
    assert_eq!(travel_ticks(wrap(0.2)), 1);
    assert_eq!(travel_ticks(wrap(1.0)), 1);
    assert_eq!(travel_ticks(wrap(1.000001)), 2);
    assert_eq!(travel_ticks(wrap(8.0)), 8);
    assert_eq!(travel_ticks(wrap(16.0)), 16);
    for v in [-5.0, f64::NAN, f64::INFINITY, f64::NEG_INFINITY, 1e20, 4294967294.5, 4294967295.5] {
        assert_eq!(travel_ticks(wrap(v)), v.ceil().max(1.0) as u32, "{}", v);
        assert_eq!(travel_ticks(wrap(v)), (v.ceil().max(0.0) as u32).max(1), "{}", v);
    }
}
