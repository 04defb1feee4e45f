use sculk_vibrations::binary64::Binary64;
use sculk_vibrations::block::{Block, BlockId};
use sculk_vibrations::distance::{center_distance, travel_ticks};
use sculk_vibrations::emission::World;
use sculk_vibrations::event::{GameEvent, VibrationSource};
use sculk_vibrations::offer::{Resonance, SensorResponse};
use sculk_vibrations::position::{BlockDirection, BlockPos, HorizontalFacing, Vector3};
use sculk_vibrations::sculk_sensor::{
    CalibratedSculkSensorLikeProperties, EntityKind, SculkSensorBlock, SculkSensorLikeProperties,
    SculkSensorPhase, SensorEffect, SensorState, Sound,
};

fn wrap(v: f64) -> Binary64 {
    Binary64 { bits: v.to_bits() }
}

fn point(x: f64, y: f64, z: f64) -> Vector3 {
    Vector3 { x: wrap(x), y: wrap(y), z: wrap(z) }
}

fn at(x: i32, y: i32, z: i32) -> BlockPos {
    BlockPos { x, y, z }
}

fn offered(calibrated: bool, calibration: u8, entity: Option<EntityKind>) -> SensorResponse {
    World::try_sensor_accept_vibration(
        at(4, 64, 0),
        calibrated,
        point(0.5, 64.5, 0.5),
        7,
        SculkSensorPhase::Inactive,
        calibration,
        entity,
    )
}

#[test]
fn an_idle_sensor_queues_what_it_hears() {
    let queue = SensorResponse::Queue { distance: wrap(4.0) };
    assert_eq!(offered(false, 0, Some(EntityKind::Plain)), queue);
    assert_eq!(offered(true, 0, Some(EntityKind::Calibrated)), queue);
}

#[test]
fn calibration_selects_a_frequency() {
    let queue = SensorResponse::Queue { distance: wrap(4.0) };
    assert_eq!(offered(true, 7, Some(EntityKind::Calibrated)), queue);
    assert_eq!(offered(true, 6, Some(EntityKind::Calibrated)), SensorResponse::Ignored);
    assert_eq!(offered(true, 15, None), SensorResponse::Ignored);
    assert_eq!(offered(false, 6, Some(EntityKind::Plain)), queue);
}

#[test]
fn a_foreign_entity_refuses() {
    assert_eq!(offered(false, 0, Some(EntityKind::Calibrated)), SensorResponse::Refused);
    assert_eq!(offered(true, 0, Some(EntityKind::Plain)), SensorResponse::Refused);
    assert_eq!(offered(false, 0, Some(EntityKind::Other)), SensorResponse::Refused);
    assert_eq!(offered(true, 0, Some(EntityKind::Other)), SensorResponse::Refused);
}

#[test]
fn without_an_entity_the_sensor_triggers_at_once() {
    assert_eq!(offered(false, 0, None), SensorResponse::Trigger { power: 8 });
    assert_eq!(offered(true, 0, None), SensorResponse::Trigger { power: 12 });
}

#[test]
fn busy_and_distant_sensors_ignore() {
    let source = point(0.5, 64.5, 0.5);
    for phase in [SculkSensorPhase::Active, SculkSensorPhase::Cooldown] {
        for calibrated in [false, true] {
            let entity = Some(if calibrated { EntityKind::Calibrated } else { EntityKind::Plain });
            assert_eq!(
                World::try_sensor_accept_vibration(
                    at(4, 64, 0),
                    calibrated,
                    source,
                    7,
                    phase,
                    0,
                    entity
                ),
                SensorResponse::Ignored
            );
            assert!(!World::sensor_listens(at(4, 64, 0), calibrated, source, phase));
        }
    }
    let idle = SculkSensorPhase::Inactive;
    assert!(World::sensor_listens(at(8, 64, 0), false, source, idle));
    assert!(!World::sensor_listens(at(9, 64, 0), false, source, idle));
    assert!(World::sensor_listens(at(16, 64, 0), true, source, idle));
    assert!(!World::sensor_listens(at(17, 64, 0), true, source, idle));
    let far = World::try_sensor_accept_vibration(
        at(9, 64, 0),
        false,
        source,
        7,
        idle,
        0,
        Some(EntityKind::Plain),
    );
    assert_eq!(far, SensorResponse::Ignored);
}

#[test]
fn calibration_is_read_at_the_face() {
    let p = at(1, 2, 3);
    let read = World::calibration_input(p, HorizontalFacing::North);
    assert_eq!(read, (at(1, 2, 2), BlockDirection::South));
    let read = World::calibration_input(p, HorizontalFacing::South);
    assert_eq!(read, (at(1, 2, 4), BlockDirection::North));
    let read = World::calibration_input(p, HorizontalFacing::West);
    assert_eq!(read, (at(0, 2, 3), BlockDirection::East));
    let read = World::calibration_input(p, HorizontalFacing::East);
    assert_eq!(read, (at(2, 2, 3), BlockDirection::West));
}

#[test]
fn a_wave_flies_where_a_vibration_was_taken() {
    let source = point(0.5, 64.5, 0.5);
    let sensor = at(0, 64, -4);
    let queue = SensorResponse::Queue { distance: wrap(4.0) };
    assert!(World::vibration_wave(source, sensor, queue, false).is_none());
    assert!(World::vibration_wave(source, sensor, SensorResponse::Ignored, true).is_none());
    assert!(World::vibration_wave(source, sensor, SensorResponse::Refused, true).is_none());
    let taken = [(queue, true), (SensorResponse::Trigger { power: 8 }, false)];
    for (response, queued) in taken {
        let wave = World::vibration_wave(source, sensor, response, queued).unwrap();
        assert_eq!(wave.origin, source);
        assert_eq!(wave.offset, point(0.0, 0.0, 0.0));
        assert_eq!(wave.max_speed, wrap(0.0));
        assert_eq!(wave.count, 1);
        assert!(wave.long_distance && wave.always_visible);
        assert_eq!(wave.data, vec![0, 0, 0, 0, 0x3f, 0xff, 0xff, 0xc0, 0x40, 4]);
        let ticks = travel_ticks(center_distance(source, sensor));
        assert_eq!(u32::from(*wave.data.last().unwrap()), ticks);
    }
}

fn plain(phase: SculkSensorPhase) -> SensorState {
    SensorState::Plain(SculkSensorLikeProperties {
        power: 0,
        sculk_sensor_phase: phase,
        waterlogged: false,
    })
}

#[test]
fn an_arrival_records_and_triggers() {
    let active = SensorState::Plain(SculkSensorLikeProperties {
        power: 8,
        sculk_sensor_phase: SculkSensorPhase::Active,
        waterlogged: false,
    });
    let effects = World::activate_sculk_sensor(
        plain(SculkSensorPhase::Inactive),
        Some(EntityKind::Plain),
        7,
        wrap(4.0),
        true,
    );
    assert_eq!(
        effects,
        vec![
            SensorEffect::RecordFrequency(7),
            SensorEffect::RecordFrequency(7),
            SensorEffect::PlaySound(Sound::BlockSculkSensorClicking),
            SensorEffect::SetState(active),
            SensorEffect::UpdateNeighbors,
            SensorEffect::ScheduleTick(30),
        ]
    );
    let busy = World::activate_sculk_sensor(
        plain(SculkSensorPhase::Cooldown),
        Some(EntityKind::Calibrated),
        3,
        wrap(4.0),
        false,
    );
    let recorded = SensorEffect::RecordFrequency(3);
    assert_eq!(busy, vec![recorded, recorded]);
    let gone = World::activate_sculk_sensor(SensorState::NoSensor, None, 3, wrap(4.0), false);
    assert_eq!(gone, vec![]);
}

#[test]
fn an_arrival_shows_strength_and_frequency() {
    for frequency in 1..=15 {
        let effects = World::activate_sculk_sensor(
            plain(SculkSensorPhase::Inactive),
            Some(EntityKind::Plain),
            frequency,
            wrap(2.5),
            frequency % 2 == 0,
        );
        let mut recorded = None;
        let mut signal = 0;
        for effect in effects {
            match effect {
                SensorEffect::RecordFrequency(f) => recorded = Some(f),
                SensorEffect::SetState(s) => {
                    signal = SculkSensorBlock::get_weak_redstone_power(s, BlockDirection::East);
                }
                _ => {}
            }
        }
        assert_eq!(signal, 11);
        assert_eq!(SculkSensorBlock::get_comparator_output(recorded), Some(frequency));
    }
}

#[test]
fn an_arrival_at_a_calibrated_sensor_uses_its_range() {
    let idle = CalibratedSculkSensorLikeProperties {
        facing: HorizontalFacing::West,
        power: 0,
        sculk_sensor_phase: SculkSensorPhase::Inactive,
        waterlogged: true,
    };
    let effects =
        World::activate_sculk_sensor(SensorState::Calibrated(idle), None, 9, wrap(8.0), true);
    let active = CalibratedSculkSensorLikeProperties {
        power: 8,
        sculk_sensor_phase: SculkSensorPhase::Active,
        ..idle
    };
    assert_eq!(
        effects,
        vec![
            SensorEffect::SetState(SensorState::Calibrated(active)),
            SensorEffect::UpdateNeighbors,
            SensorEffect::ScheduleTick(10),
        ]
    );
}

#[test]
fn amethyst_answers_an_arrival() {
    let quiet = Block {
        id: BlockId::Other,
        dampens_vibrations: false,
        occludes_vibration_signals: false,
        vibration_resonator: false,
    };
    let amethyst = Block { id: BlockId::AmethystBlock, ..quiet };
    let tagged = Block { vibration_resonator: true, ..quiet };
    let sensor = at(10, 20, 30);
    let block_at = |p: BlockPos| {
        if p == at(10, 19, 30) {
            amethyst
        } else if p == at(11, 20, 30) {
            tagged
        } else {
            quiet
        }
    };
    let answer = World::resonate(sensor, BlockDirection::Down, 5, &block_at);
    assert_eq!(
        answer,
        Some(Resonance {
            pos: point(10.5, 19.5, 30.5),
            event: GameEvent::Resonate5,
            source: VibrationSource::none(),
        })
    );
    let answer = World::resonate(sensor, BlockDirection::East, 15, &block_at).unwrap();
    assert_eq!(answer.pos, point(11.5, 20.5, 30.5));
    assert_eq!(answer.event, GameEvent::Resonate15);
    assert_eq!(World::resonate(sensor, BlockDirection::Up, 5, &block_at), None);
    assert_eq!(World::resonate(sensor, BlockDirection::Down, 0, &block_at), None);
    assert_eq!(World::resonate(sensor, BlockDirection::Down, 16, &block_at), None);
}
