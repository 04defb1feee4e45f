use sculk_vibrations::event::{
    game_event_frequency, ignored_when_sneaking, resonate_event, GameEvent, VibrationSource,
};

fn events_by_frequency() -> Vec<Vec<GameEvent>> {
    vec![
        vec![
            GameEvent::SculkSensorTendrilsClicking,
            GameEvent::Shriek,
            GameEvent::ItemInteractStart,
            GameEvent::JukeboxPlay,
            GameEvent::JukeboxStopPlay,
        ],
        vec![GameEvent::Step, GameEvent::Swim, GameEvent::Flap, GameEvent::Resonate1],
        vec![
            GameEvent::ProjectileLand,
            GameEvent::HitGround,
            GameEvent::Bounce,
            GameEvent::Splash,
            GameEvent::Resonate2,
        ],
        vec![
            GameEvent::ItemInteractFinish,
            GameEvent::ProjectileShoot,
            GameEvent::InstrumentPlay,
            GameEvent::Resonate3,
        ],
        vec![
            GameEvent::EntityAction,
            GameEvent::ElytraGlide,
            GameEvent::Unequip,
            GameEvent::Resonate4,
        ],
        vec![GameEvent::EntityDismount, GameEvent::Equip, GameEvent::Resonate5],
        vec![
            GameEvent::EntityMount,
            GameEvent::EntityInteract,
            GameEvent::Shear,
            GameEvent::Resonate6,
        ],
        vec![GameEvent::EntityDamage, GameEvent::Resonate7],
        vec![GameEvent::Drink, GameEvent::Eat, GameEvent::Resonate8],
        vec![
            GameEvent::ContainerClose,
            GameEvent::BlockClose,
            GameEvent::BlockDeactivate,
            GameEvent::BlockDetach,
            GameEvent::Resonate9,
        ],
        vec![
            GameEvent::ContainerOpen,
            GameEvent::BlockOpen,
            GameEvent::BlockActivate,
            GameEvent::BlockAttach,
            GameEvent::PrimeFuse,
            GameEvent::NoteBlockPlay,
            GameEvent::Resonate10,
        ],
        vec![GameEvent::BlockChange, GameEvent::Resonate11],
        vec![GameEvent::BlockDestroy, GameEvent::FluidPickup, GameEvent::Resonate12],
        vec![GameEvent::BlockPlace, GameEvent::FluidPlace, GameEvent::Resonate13],
        vec![
            GameEvent::EntityPlace,
            GameEvent::LightningStrike,
            GameEvent::Teleport,
            GameEvent::Resonate14,
        ],
        vec![GameEvent::EntityDie, GameEvent::Explode, GameEvent::Resonate15],
    ]
}

#[test]
fn every_event_has_its_frequency() {
    let table = events_by_frequency();
    let mut count = 0;
    for (frequency, events) in table.iter().enumerate() {
        for event in events {
            assert_eq!(usize::from(game_event_frequency(event)), frequency, "{:?}", event);
            count += 1;
        }
    }
    assert_eq!(count, 61);
}

#[test]
fn sneaking_silences_six_events() {
    let quiet = [
        GameEvent::HitGround,
        GameEvent::ProjectileShoot,
        GameEvent::Step,
        GameEvent::Swim,
        GameEvent::ItemInteractStart,
        GameEvent::ItemInteractFinish,
    ];
    for events in events_by_frequency() {
        for event in events {
            assert_eq!(ignored_when_sneaking(&event), quiet.contains(&event), "{:?}", event);
        }
    }
}

#[test]
fn resonance_has_the_frequency_that_it_answers() {
    assert_eq!(resonate_event(0), None);
    assert_eq!(resonate_event(1), Some(GameEvent::Resonate1));
    assert_eq!(resonate_event(15), Some(GameEvent::Resonate15));
    assert_eq!(resonate_event(16), None);
    assert_eq!(resonate_event(255), None);
    for frequency in 1..=15 {
        let event = resonate_event(frequency).unwrap();
        assert_eq!(game_event_frequency(&event), frequency);
        assert!(!ignored_when_sneaking(&event));
    }
}

#[test]
fn sources_say_who_they_are() {
    let player = VibrationSource::player();
    assert!(player.is_player && !player.is_sneaking && !player.is_sculk_or_warden);
    let sneaking = VibrationSource::player_sneaking();
    assert!(sneaking.is_player && sneaking.is_sneaking && !sneaking.is_sculk_or_warden);
    let none = VibrationSource::none();
    assert!(!none.is_player && !none.is_sneaking && !none.is_sculk_or_warden);
    assert_eq!(VibrationSource::default(), none);
}
