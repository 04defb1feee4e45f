use sculk_vibrations::binary64::Binary64;
use sculk_vibrations::particle::{encode_vibration_particle_data, spawn_vibration_particle};
use sculk_vibrations::position::{BlockPos, Vector3};

fn packed(p: BlockPos) -> u64 {
    let x = i64::from(p.x);
    let y = i64::from(p.y);
    let z = i64::from(p.z);
    (((x & 0x3ff_ffff) << 38) | ((z & 0x3ff_ffff) << 12) | (y & 0xfff)) as u64
}

fn expected(p: BlockPos, ticks: u32) -> Vec<u8> {
    let mut data = vec![0];
    data.extend_from_slice(&packed(p).to_be_bytes());
    let mut rest = ticks;
    while rest >= 128 {
        data.push((rest & 0x7f) as u8 | 0x80);
        rest >>= 7;
    }
    data.push(rest as u8);
    data
}

#[test]
fn data_of_a_particle() {
    let origin = BlockPos { x: 0, y: 0, z: 0 };
    assert_eq!(encode_vibration_particle_data(origin, 0), vec![0; 10]);
    let p = BlockPos { x: 18357644, y: 831, z: -20882616 };
    let data = encode_vibration_particle_data(p, 300);
    assert_eq!(
        data,
        vec![0, 0x46, 0x07, 0x63, 0x2c, 0x15, 0xb4, 0x83, 0x3f, 0xac, 0x02]
    );
}

#[test]
fn positions_are_packed_by_their_low_bits() {
    let samples = [0, 1, -1, 15, -16, 2047, -2048, 33554431, -33554432, i32::MAX, i32::MIN];
    for x in samples {
        for y in samples {
            for z in samples {
                let p = BlockPos { x, y, z };
                for ticks in [0, 1, 16, 127, 128, 16383, 16384, i32::MAX] {
                    let data = encode_vibration_particle_data(p, ticks);
                    assert_eq!(data, expected(p, ticks as u32));
                }
            }
        }
    }
}

#[test]
fn negative_ticks_count_as_none() {
    let p = BlockPos { x: 1, y: 2, z: 3 };
    let none = encode_vibration_particle_data(p, 0);
    assert_eq!(encode_vibration_particle_data(p, -1), none);
    assert_eq!(encode_vibration_particle_data(p, i32::MIN), none);
}

#[test]
fn data_is_read_back() {
    for (x, y, z) in [(5, 70, -9), (-33554432, -2048, 33554431), (-1, -1, -1)] {
        let p = BlockPos { x, y, z };
        let data = encode_vibration_particle_data(p, 16);
        assert_eq!(data[0], 0);
        let mut bytes = [0; 8];
        bytes.copy_from_slice(&data[1..9]);
        let v = i64::from_be_bytes(bytes);
        assert_eq!((v >> 38) as i32, x);
        assert_eq!(((v << 52) >> 52) as i32, y);
        assert_eq!(((v << 26) >> 38) as i32, z);
        assert_eq!(data[9..], [16]);
    }
}

#[test]
fn a_particle_starts_at_the_event() {
    let source = Vector3 {
        x: Binary64 { bits: 1.25f64.to_bits() },
        y: Binary64 { bits: (-7.5f64).to_bits() },
        z: Binary64 { bits: 0.1f64.to_bits() },
    };
    let p = BlockPos { x: -3, y: 60, z: 8 };
    let particle = spawn_vibration_particle(source, p, 9);
    assert_eq!(particle.origin, source);
    assert_eq!(particle.offset.x.bits, 0);
    assert_eq!(particle.offset.y.bits, 0);
    assert_eq!(particle.offset.z.bits, 0);
    assert_eq!(particle.max_speed.bits, 0);
    assert_eq!(particle.count, 1);
    assert_eq!(particle.data, expected(p, 9));
    assert!(particle.long_distance && particle.always_visible);
    let late = spawn_vibration_particle(source, p, 0x8000_0000);
    assert_eq!(late.data, expected(p, 0));
}
