use sculk_vibrations::block::BlockId;
use sculk_vibrations::position::{BlockDirection, HorizontalFacing};
use sculk_vibrations::sculk_sensor::{
    play_sensor_click, play_sensor_click_stop, CalibratedSculkSensorLikeProperties, EntityKind,
    SculkSensorBlock, SculkSensorLikeProperties, SculkSensorPhase, SensorEffect, SensorState, Sound,
    CALIBRATED_ACTIVE_TICKS, CALIBRATED_COOLDOWN_TICKS, SCULK_SENSOR_ACTIVE_TICKS,
    SCULK_SENSOR_COOLDOWN_TICKS,
};

fn plain(phase: SculkSensorPhase, power: u8, waterlogged: bool) -> SensorState {
    SensorState::Plain(SculkSensorLikeProperties { power, sculk_sensor_phase: phase, waterlogged })
}

fn calibrated(phase: SculkSensorPhase, power: u8, waterlogged: bool) -> SensorState {
    SensorState::Calibrated(CalibratedSculkSensorLikeProperties {
        facing: HorizontalFacing::East,
        power,
        sculk_sensor_phase: phase,
        waterlogged,
    })
}

fn state_of(effects: &[SensorEffect]) -> Option<SensorState> {
    let mut state = None;
    for effect in effects {
        if let SensorEffect::SetState(s) = effect {
            state = Some(*s);
        }
    }
    state
}

#[test]
fn ticks_of_both_sensors() {
    assert_eq!(SCULK_SENSOR_ACTIVE_TICKS, 30);
    assert_eq!(SCULK_SENSOR_COOLDOWN_TICKS, 10);
    assert_eq!(CALIBRATED_ACTIVE_TICKS, 10);
    assert_eq!(CALIBRATED_COOLDOWN_TICKS, 10);
    assert_eq!(
        SculkSensorBlock::ids(),
        vec![BlockId::SculkSensor, BlockId::CalibratedSculkSensor]
    );
}

#[test]
fn sounds_are_silent_under_water() {
    assert_eq!(play_sensor_click(true), vec![]);
    assert_eq!(play_sensor_click_stop(true), vec![]);
    let clicking = SensorEffect::PlaySound(Sound::BlockSculkSensorClicking);
    assert_eq!(play_sensor_click(false), vec![clicking]);
    let stop = SensorEffect::PlaySound(Sound::BlockSculkSensorClickingStop);
    assert_eq!(play_sensor_click_stop(false), vec![stop]);
}

#[test]
fn a_trigger_activates_an_inactive_sensor() {
    let idle = SculkSensorPhase::Inactive;
    let effects = SculkSensorBlock::trigger(plain(idle, 0, true), Some(EntityKind::Plain), 12, 4);
    assert_eq!(
        effects,
        vec![
            SensorEffect::RecordFrequency(4),
            SensorEffect::SetState(plain(SculkSensorPhase::Active, 12, true)),
            SensorEffect::UpdateNeighbors,
            SensorEffect::ScheduleTick(30),
        ]
    );
    let effects = SculkSensorBlock::trigger(calibrated(idle, 0, false), None, 3, 4);
    assert_eq!(
        effects,
        vec![
            SensorEffect::PlaySound(Sound::BlockSculkSensorClicking),
            SensorEffect::SetState(calibrated(SculkSensorPhase::Active, 3, false)),
            SensorEffect::UpdateNeighbors,
            SensorEffect::ScheduleTick(10),
        ]
    );
}

#[test]
fn a_trigger_brings_power_between_one_and_fifteen() {
    let idle = plain(SculkSensorPhase::Inactive, 0, false);
    for (power, expected) in [(0, 1), (1, 1), (15, 15), (16, 15), (255, 15)] {
        let effects = SculkSensorBlock::trigger(idle, None, power, 1);
        let active = plain(SculkSensorPhase::Active, expected, false);
        assert_eq!(state_of(&effects), Some(active));
    }
}

#[test]
fn a_trigger_leaves_a_busy_sensor_alone() {
    for phase in [SculkSensorPhase::Active, SculkSensorPhase::Cooldown] {
        for state in [plain(phase, 5, false), calibrated(phase, 5, false)] {
            let effects = SculkSensorBlock::trigger(state, Some(EntityKind::Calibrated), 9, 2);
            assert_eq!(effects, vec![SensorEffect::RecordFrequency(2)]);
            assert_eq!(SculkSensorBlock::trigger(state, Some(EntityKind::Other), 9, 2), vec![]);
        }
    }
    assert_eq!(SculkSensorBlock::trigger(SensorState::NoSensor, None, 9, 2), vec![]);
}

#[test]
fn a_sensor_is_placed_in_cooldown() {
    let state = SculkSensorBlock::on_place(BlockId::SculkSensor, HorizontalFacing::North, true);
    assert_eq!(state, plain(SculkSensorPhase::Cooldown, 0, true));
    let facing = HorizontalFacing::East;
    let state = SculkSensorBlock::on_place(BlockId::CalibratedSculkSensor, facing, false);
    assert_eq!(state, calibrated(SculkSensorPhase::Cooldown, 0, false));
    assert_eq!(SculkSensorBlock::placed(), vec![SensorEffect::ScheduleTick(10)]);
    assert_eq!(SculkSensorBlock::broken(), vec![SensorEffect::RemoveBlockEntity]);
    assert!(SculkSensorBlock::emits_redstone_power());
}

#[test]
fn a_placed_sensor_rests_first() {
    for block in [BlockId::SculkSensor, BlockId::CalibratedSculkSensor] {
        let state = SculkSensorBlock::on_place(block, HorizontalFacing::South, false);
        assert_eq!(SculkSensorBlock::get_weak_redstone_power(state, BlockDirection::Up), 0);
        assert_eq!(SculkSensorBlock::trigger(state, None, 15, 1), vec![]);
        let idle = state_of(&SculkSensorBlock::on_scheduled_tick(state)).unwrap();
        assert!(state_of(&SculkSensorBlock::trigger(idle, None, 15, 1)).is_some());
    }
}

#[test]
fn a_tick_ends_activity_and_cooldown() {
    let effects = SculkSensorBlock::on_scheduled_tick(plain(SculkSensorPhase::Active, 9, false));
    assert_eq!(
        effects,
        vec![
            SensorEffect::PlaySound(Sound::BlockSculkSensorClickingStop),
            SensorEffect::SetState(plain(SculkSensorPhase::Cooldown, 0, false)),
            SensorEffect::ScheduleTick(10),
            SensorEffect::UpdateNeighbors,
        ]
    );
    let effects =
        SculkSensorBlock::on_scheduled_tick(calibrated(SculkSensorPhase::Cooldown, 0, true));
    assert_eq!(
        effects,
        vec![
            SensorEffect::SetState(calibrated(SculkSensorPhase::Inactive, 0, true)),
            SensorEffect::UpdateNeighbors,
        ]
    );
    let idle = plain(SculkSensorPhase::Inactive, 0, false);
    assert_eq!(SculkSensorBlock::on_scheduled_tick(idle), vec![]);
    assert_eq!(SculkSensorBlock::on_scheduled_tick(SensorState::NoSensor), vec![]);
}

#[test]
fn the_life_of_a_sensor_is_a_cycle() {
    let idle = SculkSensorPhase::Inactive;
    for rest in [plain(idle, 0, false), calibrated(idle, 0, true)] {
        let active = state_of(&SculkSensorBlock::trigger(rest, None, 6, 2)).unwrap();
        assert_eq!(SculkSensorBlock::get_weak_redstone_power(active, BlockDirection::North), 6);
        let cooling = state_of(&SculkSensorBlock::on_scheduled_tick(active)).unwrap();
        assert_eq!(SculkSensorBlock::get_weak_redstone_power(cooling, BlockDirection::North), 0);
        let end = state_of(&SculkSensorBlock::on_scheduled_tick(cooling)).unwrap();
        assert_eq!(end, rest);
    }
}

#[test]
fn signals_of_an_active_sensor() {
    let active = plain(SculkSensorPhase::Active, 11, false);
    for d in BlockDirection::all() {
        assert_eq!(SculkSensorBlock::get_weak_redstone_power(active, d), 11);
        let strong = if d == BlockDirection::Up { 11 } else { 0 };
        assert_eq!(SculkSensorBlock::get_strong_redstone_power(active, d), strong);
        for phase in [SculkSensorPhase::Inactive, SculkSensorPhase::Cooldown] {
            let quiet = plain(phase, 11, false);
            assert_eq!(SculkSensorBlock::get_weak_redstone_power(quiet, d), 0);
            assert_eq!(SculkSensorBlock::get_strong_redstone_power(quiet, d), 0);
            let quiet = calibrated(phase, 11, false);
            assert_eq!(SculkSensorBlock::get_weak_redstone_power(quiet, d), 0);
            assert_eq!(SculkSensorBlock::get_strong_redstone_power(quiet, d), 0);
        }
        assert_eq!(SculkSensorBlock::get_weak_redstone_power(SensorState::NoSensor, d), 0);
        assert_eq!(SculkSensorBlock::get_strong_redstone_power(SensorState::NoSensor, d), 0);
    }
}

#[test]
fn the_input_side_gives_no_signal() {
    // The sensor faces east: its input is the block to the east, from which it
    // lies west.
    let active = calibrated(SculkSensorPhase::Active, 11, false);
    for d in BlockDirection::all() {
        let weak = if d == BlockDirection::West { 0 } else { 11 };
        assert_eq!(SculkSensorBlock::get_weak_redstone_power(active, d), weak);
        let strong = if d == BlockDirection::Up { 11 } else { 0 };
        assert_eq!(SculkSensorBlock::get_strong_redstone_power(active, d), strong);
    }
}

#[test]
fn a_comparator_shows_the_last_frequency() {
    assert_eq!(SculkSensorBlock::get_comparator_output(None), Some(0));
    let cases = [(0, 0), (1, 1), (15, 15), (16, 15), (-1, 0), (i32::MAX, 15), (i32::MIN, 0)];
    for (frequency, shown) in cases {
        assert_eq!(SculkSensorBlock::get_comparator_output(Some(frequency)), Some(shown));
    }
}
