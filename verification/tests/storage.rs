use sculk_vibrations::binary64::binary32::Binary32;
use sculk_vibrations::binary64::Binary64;
use sculk_vibrations::calibrated_sculk_sensor::{
    read_pending, CalibratedSculkSensorBlockEntity, PendingVibration,
};
use sculk_vibrations::nbt::{NbtCompound, NbtTag};
use sculk_vibrations::position::{BlockPos, Vector3};

fn wrap(v: f64) -> Binary64 {
    Binary64 { bits: v.to_bits() }
}

fn point(x: f64, y: f64, z: f64) -> Vector3 {
    Vector3 { x: wrap(x), y: wrap(y), z: wrap(z) }
}

fn place() -> BlockPos {
    BlockPos { x: 7, y: 64, z: -7 }
}

fn doubles(values: &[f64]) -> NbtTag {
    NbtTag::List(values.iter().map(|v| NbtTag::Double(wrap(*v))).collect())
}

struct Stored {
    delay: Option<i32>,
    pos: Option<NbtTag>,
    distance: Option<f32>,
    frequency: Option<i32>,
    last: Option<i32>,
}

fn stored(s: Stored) -> NbtCompound {
    let mut event = NbtCompound::new();
    if let Some(v) = s.distance {
        event.put("distance", NbtTag::Float(Binary32 { bits: v.to_bits() }));
    }
    if let Some(v) = s.frequency {
        event.put("frequency", NbtTag::Int(v));
    }
    if let Some(v) = s.pos {
        event.put("pos", v);
    }
    let mut listener = NbtCompound::new();
    if let Some(v) = s.delay {
        listener.put("event_delay", NbtTag::Int(v));
    }
    listener.put("event", NbtTag::Compound(event));
    let mut nbt = NbtCompound::new();
    if let Some(v) = s.last {
        nbt.put("last_vibration_frequency", NbtTag::Int(v));
    }
    nbt.put("listener", NbtTag::Compound(listener));
    nbt
}

#[test]
fn a_new_entity_waits_for_nothing() {
    let sensor = CalibratedSculkSensorBlockEntity::new(place());
    assert_eq!(sensor.get_position(), place());
    assert_eq!(sensor.last_vibration_frequency, 0);
    assert_eq!(sensor.pending, None);
    assert_eq!(sensor.resource_location(), "minecraft:calibrated_sculk_sensor");
    assert_eq!(CalibratedSculkSensorBlockEntity::ID, "minecraft:calibrated_sculk_sensor");
}

#[test]
fn names_are_looked_up_and_replaced() {
    let mut nbt = NbtCompound::new();
    assert!(nbt.get("a").is_none());
    nbt.put("a", NbtTag::Int(1));
    nbt.put("b", NbtTag::Float(Binary32 { bits: 2.5f32.to_bits() }));
    nbt.put("a", NbtTag::Int(3));
    assert_eq!(nbt.child_tags.len(), 2);
    assert_eq!(nbt.get_int("a"), Some(3));
    assert_eq!(nbt.get_int("b"), None);
    assert_eq!(nbt.get_float("b"), Some(Binary32 { bits: 2.5f32.to_bits() }));
    assert_eq!(nbt.get_float("a"), None);
    assert!(nbt.get_list("a").is_none());
    assert!(nbt.get_compound("a").is_none());
    nbt.put("c", doubles(&[1.0]));
    assert_eq!(nbt.get_list("c").unwrap().len(), 1);
    assert_eq!(nbt.get_list("c").unwrap()[0].extract_double(), Some(wrap(1.0)));
    assert_eq!(NbtTag::Int(1).extract_double(), None);
    assert_eq!(NbtTag::Other.extract_double(), None);
}

#[test]
fn a_stored_vibration_is_read() {
    let nbt = stored(Stored {
        delay: Some(5),
        pos: Some(doubles(&[1.5, -2.0, 3.25])),
        distance: Some(4.75),
        frequency: Some(11),
        last: Some(3),
    });
    let sensor = CalibratedSculkSensorBlockEntity::from_nbt(&nbt, place());
    assert_eq!(sensor.position, place());
    assert_eq!(sensor.last_vibration_frequency, 3);
    assert_eq!(
        sensor.pending,
        Some(PendingVibration {
            source: point(1.5, -2.0, 3.25),
            frequency: 11,
            distance: wrap(4.75),
            delay_ticks: 5,
            from_player: false,
        })
    );
}

#[test]
fn what_is_missing_has_a_default() {
    let nbt = stored(Stored {
        delay: Some(1),
        pos: Some(NbtTag::List(vec![NbtTag::Int(4), NbtTag::Other, NbtTag::Double(wrap(2.0))])),
        distance: None,
        frequency: None,
        last: None,
    });
    let read = read_pending(&nbt).unwrap();
    assert_eq!(read.source, point(0.0, 0.0, 2.0));
    assert_eq!(read.distance, wrap(0.0));
    assert_eq!(read.frequency, 1);
    let empty = CalibratedSculkSensorBlockEntity::from_nbt(&NbtCompound::new(), place());
    assert_eq!(empty.last_vibration_frequency, 0);
    assert_eq!(empty.pending, None);
}

#[test]
fn a_stored_frequency_is_brought_in_range() {
    let cases = [
        (Some(0), Some(9), 1),
        (Some(-4), None, 1),
        (Some(15), None, 15),
        (Some(99), None, 15),
        (None, Some(9), 9),
        (None, Some(0), 1),
        (None, Some(40), 15),
    ];
    for (frequency, last, expected) in cases {
        let nbt = stored(Stored {
            delay: Some(2),
            pos: Some(doubles(&[0.0, 0.0, 0.0])),
            distance: Some(1.0),
            frequency,
            last,
        });
        assert_eq!(read_pending(&nbt).unwrap().frequency, expected);
    }
}

#[test]
fn nothing_is_read_without_a_delay_or_a_place() {
    for delay in [None, Some(0), Some(-1), Some(i32::MIN)] {
        let nbt = stored(Stored {
            delay,
            pos: Some(doubles(&[0.0, 0.0, 0.0])),
            distance: Some(1.0),
            frequency: Some(1),
            last: None,
        });
        assert_eq!(read_pending(&nbt), None);
    }
    for pos in [None, Some(doubles(&[])), Some(doubles(&[1.0, 2.0])), Some(NbtTag::Int(3))] {
        let nbt =
            stored(Stored { delay: Some(3), pos, distance: Some(1.0), frequency: Some(1), last: None });
        assert_eq!(read_pending(&nbt), None);
    }
    let mut listener = NbtCompound::new();
    listener.put("event_delay", NbtTag::Int(4));
    let mut nbt = NbtCompound::new();
    nbt.put("listener", NbtTag::Compound(listener));
    assert_eq!(read_pending(&nbt), None);
    nbt.put("listener", NbtTag::Int(4));
    assert_eq!(read_pending(&nbt), None);
}

#[test]
fn a_written_sensor_has_its_names() {
    let mut sensor = CalibratedSculkSensorBlockEntity::new(place());
    sensor.last_vibration_frequency = 6;
    let mut nbt = NbtCompound::new();
    sensor.write_nbt(&mut nbt);
    assert_eq!(nbt.get_int("last_vibration_frequency"), Some(6));
    assert!(nbt.get("listener").is_none());
    assert!(sensor.try_queue_vibration(point(0.25, 1.0, -8.0), 12, wrap(3.1), true));
    sensor.write_nbt(&mut nbt);
    let listener = nbt.get_compound("listener").unwrap();
    assert_eq!(listener.get_int("event_delay"), Some(4));
    let event = listener.get_compound("event").unwrap();
    assert_eq!(event.get_float("distance"), Some(Binary32 { bits: 3.1f32.to_bits() }));
    assert_eq!(event.get_int("frequency"), Some(12));
    assert_eq!(listener.child_tags.len(), 2);
    assert_eq!(event.child_tags.len(), 3);
    let pos = event.get_list("pos").unwrap();
    assert_eq!(pos.len(), 3);
    assert_eq!(pos[0].extract_double(), Some(wrap(0.25)));
    assert_eq!(pos[1].extract_double(), Some(wrap(1.0)));
    assert_eq!(pos[2].extract_double(), Some(wrap(-8.0)));
}

#[test]
fn a_sensor_is_read_back() {
    let mut sensor = CalibratedSculkSensorBlockEntity::new(place());
    sensor.last_vibration_frequency = 14;
    assert!(sensor.try_queue_vibration(point(9.9, 8.8, 7.7), 14, wrap(7.3), true));
    let mut nbt = NbtCompound::new();
    nbt.put("other", NbtTag::Int(5));
    sensor.write_nbt(&mut nbt);
    assert_eq!(nbt.get_int("other"), Some(5));
    let read = CalibratedSculkSensorBlockEntity::from_nbt(&nbt, place());
    assert_eq!(read.last_vibration_frequency, 14);
    assert_eq!(
        read.pending,
        Some(PendingVibration {
            source: point(9.9, 8.8, 7.7),
            frequency: 14,
            distance: wrap(f64::from(7.3f32)),
            delay_ticks: 8,
            from_player: false,
        })
    );
    let mut again = NbtCompound::new();
    read.write_nbt(&mut again);
    assert_eq!(read_pending(&again), read.pending);
}

#[test]
fn a_huge_delay_is_not_read_back() {
    let mut sensor = CalibratedSculkSensorBlockEntity::new(place());
    assert!(sensor.try_queue_vibration(point(0.0, 0.0, 0.0), 1, wrap(f64::INFINITY), false));
    assert_eq!(sensor.pending.unwrap().delay_ticks, u32::MAX);
    let mut nbt = NbtCompound::new();
    sensor.write_nbt(&mut nbt);
    let listener = nbt.get_compound("listener").unwrap();
    assert_eq!(listener.get_int("event_delay"), Some(-1));
    assert_eq!(read_pending(&nbt), None);
}

#[test]
fn one_vibration_waits_at_a_time() {
    let mut sensor = CalibratedSculkSensorBlockEntity::new(place());
    assert!(sensor.try_queue_vibration(point(1.0, 2.0, 3.0), 4, wrap(2.5), true));
    let waiting = PendingVibration {
        source: point(1.0, 2.0, 3.0),
        frequency: 4,
        distance: wrap(2.5),
        delay_ticks: 3,
        from_player: true,
    };
    assert_eq!(sensor.pending, Some(waiting));
    assert!(!sensor.try_queue_vibration(point(0.0, 0.0, 0.0), 9, wrap(1.0), false));
    assert_eq!(sensor.pending, Some(waiting));
}

#[test]
fn a_vibration_arrives_after_its_delay() {
    for (distance, ticks) in [(0.0, 1), (0.7, 1), (1.0, 1), (3.2, 4), (16.0, 16)] {
        let mut sensor = CalibratedSculkSensorBlockEntity::new(place());
        assert_eq!(sensor.tick(), None);
        assert!(sensor.try_queue_vibration(point(0.0, 0.0, 0.0), 8, wrap(distance), false));
        for _ in 1..ticks {
            assert_eq!(sensor.tick(), None);
            assert!(sensor.pending.is_some());
        }
        let arrived = sensor.tick().unwrap();
        assert_eq!(arrived.frequency, 8);
        assert_eq!(arrived.distance, wrap(distance));
        assert_eq!(arrived.delay_ticks, 0);
        assert_eq!(sensor.pending, None);
        assert_eq!(sensor.tick(), None);
    }
}

#[test]
fn a_vibration_without_delay_arrives_with_the_next_tick() {
    let mut sensor = CalibratedSculkSensorBlockEntity::new(place());
    sensor.pending = Some(PendingVibration {
        source: point(0.0, 0.0, 0.0),
        frequency: 2,
        distance: wrap(0.0),
        delay_ticks: 0,
        from_player: false,
    });
    assert!(sensor.tick().is_some());
    assert_eq!(sensor.pending, None);
}
