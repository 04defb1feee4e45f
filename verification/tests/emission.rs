use sculk_vibrations::binary64::Binary64;
use sculk_vibrations::block::{Block, BlockId};
use sculk_vibrations::emission::World;
use sculk_vibrations::event::{GameEvent, VibrationSource};
use sculk_vibrations::position::{BlockPos, Vector3};

fn point(x: f64, y: f64, z: f64) -> Vector3 {
    Vector3 {
        x: Binary64 { bits: x.to_bits() },
        y: Binary64 { bits: y.to_bits() },
        z: Binary64 { bits: z.to_bits() },
    }
}

fn block(id: BlockId) -> Block {
    Block {
        id,
        dampens_vibrations: false,
        occludes_vibration_signals: false,
        vibration_resonator: false,
    }
}

fn wool() -> Block {
    Block { dampens_vibrations: true, ..block(BlockId::Other) }
}

fn at(x: i32, y: i32, z: i32) -> BlockPos {
    BlockPos { x, y, z }
}

#[test]
fn sensors_in_range_are_candidates() {
    let plain = [at(0, 72, 0), at(0, 73, 0), at(8, 64, 0)];
    let calibrated = [at(-16, 64, 0), at(0, 64, 15), at(0, 64, 17), at(16, 65, 0)];
    let block_at = |p: BlockPos| {
        if plain.contains(&p) {
            block(BlockId::SculkSensor)
        } else if calibrated.contains(&p) {
            block(BlockId::CalibratedSculkSensor)
        } else {
            block(BlockId::Other)
        }
    };
    let emission = World::emit_game_event(
        point(0.5, 64.5, 0.5),
        GameEvent::BlockPlace,
        VibrationSource::player(),
        &block_at,
        &|_: (i32, i32)| true,
    )
    .unwrap();
    assert_eq!(emission.frequency, 13);
    assert!(emission.from_player);
    assert_eq!(emission.center, at(0, 64, 0));
    assert_eq!(
        emission.candidates,
        vec![
            (at(-16, 64, 0), true),
            (at(0, 64, 15), true),
            (at(0, 72, 0), false),
            (at(8, 64, 0), false),
        ]
    );
}

#[test]
fn inactive_chunks_have_no_candidates() {
    let emission = World::emit_game_event(
        point(15.5, 64.5, 0.5),
        GameEvent::Explode,
        VibrationSource::none(),
        &|_: BlockPos| block(BlockId::CalibratedSculkSensor),
        &|c: (i32, i32)| c == (1, 0),
    )
    .unwrap();
    assert!(!emission.from_player);
    assert!(!emission.candidates.is_empty());
    for (p, calibrated) in &emission.candidates {
        assert_eq!(p.chunk_position(), (1, 0));
        assert!(*calibrated);
    }
}

#[test]
fn candidates_are_those_of_native_arithmetic() {
    let pos = [-3.2, 70.9, 12.000001];
    for id in [BlockId::SculkSensor, BlockId::CalibratedSculkSensor] {
        let emission = World::emit_game_event(
            point(pos[0], pos[1], pos[2]),
            GameEvent::EntityDie,
            VibrationSource::none(),
            &|_: BlockPos| block(id),
            &|_: (i32, i32)| true,
        )
        .unwrap();
        let calibrated = id == BlockId::CalibratedSculkSensor;
        let range = if calibrated { 16.0 } else { 8.0 };
        let mut expected = Vec::new();
        for x in -40..40 {
            for y in 30..110 {
                for z in -30..60 {
                    let dx = pos[0] - (f64::from(x) + 0.5);
                    let dy = pos[1] - (f64::from(y) + 0.5);
                    let dz = pos[2] - (f64::from(z) + 0.5);
                    if (dx * dx + dy * dy + dz * dz).sqrt() <= range {
                        expected.push((at(x, y, z), calibrated));
                    }
                }
            }
        }
        assert_eq!(emission.candidates, expected);
    }
}

#[test]
fn silent_sources_and_events_are_not_heard() {
    let air = |_: BlockPos| block(BlockId::Other);
    let active = |_: (i32, i32)| true;
    let pos = point(0.5, 64.5, 0.5);
    let warden = VibrationSource { is_sculk_or_warden: true, ..VibrationSource::none() };
    assert!(World::emit_game_event(pos, GameEvent::Explode, warden, &air, &active).is_none());
    let sneaking = VibrationSource::player_sneaking();
    assert!(World::emit_game_event(pos, GameEvent::Step, sneaking, &air, &active).is_none());
    let walking = VibrationSource::player();
    assert!(World::emit_game_event(pos, GameEvent::Step, walking, &air, &active).is_some());
    assert!(World::emit_game_event(pos, GameEvent::Eat, sneaking, &air, &active).is_some());
    assert!(World::emit_game_event(pos, GameEvent::Shriek, walking, &air, &active).is_none());
    assert!(World::emit_game_event(pos, GameEvent::JukeboxPlay, walking, &air, &active).is_none());
}

#[test]
fn hearing_is_decided_by_event_source_and_block() {
    let air = block(BlockId::Other);
    let none = VibrationSource::none();
    assert!(World::is_audible(GameEvent::Step, none));
    assert!(!World::is_audible(GameEvent::Step, VibrationSource::player_sneaking()));
    assert!(!World::is_audible(GameEvent::ItemInteractStart, none));
    assert!(World::is_heard(GameEvent::Step, none, &air));
    assert!(!World::is_heard(GameEvent::Step, none, &wool()));
    assert!(World::is_heard(GameEvent::Swim, none, &wool()));
    assert!(!World::is_heard(GameEvent::Shriek, none, &air));
}

#[test]
fn wool_muffles_five_events() {
    let active = |_: (i32, i32)| true;
    let on_wool = |p: BlockPos| if p == at(0, 64, 0) { wool() } else { block(BlockId::Other) };
    let near_wool = |p: BlockPos| if p == at(0, 63, 0) { wool() } else { block(BlockId::Other) };
    let pos = point(0.5, 64.0, 0.5);
    let source = VibrationSource::player();
    for event in [
        GameEvent::BlockPlace,
        GameEvent::BlockDestroy,
        GameEvent::Step,
        GameEvent::HitGround,
        GameEvent::ProjectileLand,
    ] {
        assert!(World::emit_game_event(pos, event, source, &on_wool, &active).is_none());
        assert!(World::emit_game_event(pos, event, source, &near_wool, &active).is_some());
    }
    assert!(World::emit_game_event(pos, GameEvent::Eat, source, &on_wool, &active).is_some());
    assert!(World::emit_game_event(pos, GameEvent::Resonate4, source, &on_wool, &active).is_some());
}

#[test]
fn occluded_candidates_are_passed_over() {
    let sensors = [at(-4, 64, 0), at(0, 64, 4), at(4, 64, 0)];
    let walls = [at(-2, 64, 0), at(2, 64, 0)];
    let block_at = |p: BlockPos| {
        if sensors.contains(&p) {
            block(BlockId::SculkSensor)
        } else if walls.contains(&p) {
            wool()
        } else {
            block(BlockId::Other)
        }
    };
    let emission = World::emit_game_event(
        point(0.5, 64.5, 0.5),
        GameEvent::Splash,
        VibrationSource::none(),
        &block_at,
        &|_: (i32, i32)| true,
    )
    .unwrap();
    assert_eq!(emission.candidates.len(), 3);
    assert_eq!(emission.next_listener(0, &block_at), Some(1));
    assert_eq!(emission.next_listener(1, &block_at), Some(1));
    assert_eq!(emission.next_listener(2, &block_at), None);
    assert_eq!(emission.next_listener(9, &block_at), None);
    let open = |_: BlockPos| block(BlockId::Other);
    assert_eq!(emission.next_listener(2, &open), Some(2));
}

#[test]
fn an_event_at_no_place_is_heard_by_calibrated_sensors_only() {
    // No distance is greater than the range of a calibrated sensor.
    let emission = World::emit_game_event(
        point(f64::NAN, 0.5, 0.5),
        GameEvent::Eat,
        VibrationSource::none(),
        &|p: BlockPos| {
            if p == at(16, 16, 16) {
                block(BlockId::CalibratedSculkSensor)
            } else {
                block(BlockId::SculkSensor)
            }
        },
        &|_: (i32, i32)| true,
    )
    .unwrap();
    assert_eq!(emission.candidates, vec![(at(16, 16, 16), true)]);
}
