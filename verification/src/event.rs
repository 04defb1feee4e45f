//! Game events, their frequencies, and who causes them.
use vstd::prelude::*;

verus! {

/// What can happen in a world that others may sense.
#[derive(Clone, Copy, Debug, PartialEq, Eq, Structural)]
pub enum GameEvent {
    BlockActivate,
    BlockAttach,
    BlockChange,
    BlockClose,
    BlockDeactivate,
    BlockDestroy,
    BlockDetach,
    BlockOpen,
    BlockPlace,
    Bounce,
    ContainerClose,
    ContainerOpen,
    Drink,
    Eat,
    ElytraGlide,
    EntityAction,
    EntityDamage,
    EntityDie,
    EntityDismount,
    EntityInteract,
    EntityMount,
    EntityPlace,
    Equip,
    Explode,
    Flap,
    FluidPickup,
    FluidPlace,
    HitGround,
    InstrumentPlay,
    ItemInteractFinish,
    ItemInteractStart,
    JukeboxPlay,
    JukeboxStopPlay,
    LightningStrike,
    NoteBlockPlay,
    PrimeFuse,
    ProjectileLand,
    ProjectileShoot,
    Resonate1,
    Resonate2,
    Resonate3,
    Resonate4,
    Resonate5,
    Resonate6,
    Resonate7,
    Resonate8,
    Resonate9,
    Resonate10,
    Resonate11,
    Resonate12,
    Resonate13,
    Resonate14,
    Resonate15,
    SculkSensorTendrilsClicking,
    Shear,
    Shriek,
    Splash,
    Step,
    Swim,
    Teleport,
    Unequip,
}

/// Who or what caused a vibration.
#[derive(Clone, Copy, Debug, PartialEq, Eq, Structural)]
pub struct VibrationSource {
    pub is_player: bool,
    pub is_sneaking: bool,
    /// Sensors ignore wardens and emitters of the sculk family.
    pub is_sculk_or_warden: bool,
}

impl VibrationSource {
    /// A source of which nothing is known.
    pub open spec fn nobody() -> VibrationSource {
        VibrationSource { is_player: false, is_sneaking: false, is_sculk_or_warden: false }
    }

    /// A player on foot.
    pub fn player() -> (r: VibrationSource)
        ensures
            r == (VibrationSource { is_player: true, ..VibrationSource::nobody() }),
            r.is_player && !r.is_sneaking && !r.is_sculk_or_warden,
    {
        VibrationSource { is_player: true, is_sneaking: false, is_sculk_or_warden: false }
    }

    /// A sneaking player.
    pub fn player_sneaking() -> (r: VibrationSource)
        ensures
            r == (VibrationSource {
                is_player: true,
                is_sneaking: true,
                ..VibrationSource::nobody()
            }),
            r.is_player && r.is_sneaking && !r.is_sculk_or_warden,
    {
        VibrationSource { is_player: true, is_sneaking: true, is_sculk_or_warden: false }
    }

    /// Nobody in particular.
    pub fn none() -> (r: VibrationSource)
        ensures
            r == VibrationSource::nobody(),
            !r.is_player && !r.is_sneaking && !r.is_sculk_or_warden,
    {
        VibrationSource { is_player: false, is_sneaking: false, is_sculk_or_warden: false }
    }
}

impl Default for VibrationSource {
    fn default() -> (r: VibrationSource)
        ensures
            r == VibrationSource::nobody(),
    {
        VibrationSource::none()
    }
}

/// The frequency of an event, from 1 to 15; 0 for an event that no sensor
/// listens to.
pub open spec fn frequency_of(event: GameEvent) -> u8 {
    match event {
        GameEvent::Step | GameEvent::Swim | GameEvent::Flap | GameEvent::Resonate1 => 1,
        GameEvent::ProjectileLand
        | GameEvent::HitGround
        | GameEvent::Bounce
        | GameEvent::Splash
        | GameEvent::Resonate2 => 2,
        GameEvent::ItemInteractFinish
        | GameEvent::ProjectileShoot
        | GameEvent::InstrumentPlay
        | GameEvent::Resonate3 => 3,
        GameEvent::EntityAction
        | GameEvent::ElytraGlide
        | GameEvent::Unequip
        | GameEvent::Resonate4 => 4,
        GameEvent::EntityDismount | GameEvent::Equip | GameEvent::Resonate5 => 5,
        GameEvent::EntityMount
        | GameEvent::EntityInteract
        | GameEvent::Shear
        | GameEvent::Resonate6 => 6,
        GameEvent::EntityDamage | GameEvent::Resonate7 => 7,
        GameEvent::Drink | GameEvent::Eat | GameEvent::Resonate8 => 8,
        GameEvent::ContainerClose
        | GameEvent::BlockClose
        | GameEvent::BlockDeactivate
        | GameEvent::BlockDetach
        | GameEvent::Resonate9 => 9,
        GameEvent::ContainerOpen
        | GameEvent::BlockOpen
        | GameEvent::BlockActivate
        | GameEvent::BlockAttach
        | GameEvent::PrimeFuse
        | GameEvent::NoteBlockPlay
        | GameEvent::Resonate10 => 10,
        GameEvent::BlockChange | GameEvent::Resonate11 => 11,
        GameEvent::BlockDestroy | GameEvent::FluidPickup | GameEvent::Resonate12 => 12,
        GameEvent::BlockPlace | GameEvent::FluidPlace | GameEvent::Resonate13 => 13,
        GameEvent::EntityPlace
        | GameEvent::LightningStrike
        | GameEvent::Teleport
        | GameEvent::Resonate14 => 14,
        GameEvent::EntityDie | GameEvent::Explode | GameEvent::Resonate15 => 15,
        GameEvent::SculkSensorTendrilsClicking
        | GameEvent::Shriek
        | GameEvent::ItemInteractStart
        | GameEvent::JukeboxPlay
        | GameEvent::JukeboxStopPlay => 0,
    }
}

/// The events of a sneaking player that no sensor hears.
pub open spec fn quiet_when_sneaking(event: GameEvent) -> bool {
    ||| event == GameEvent::HitGround
    ||| event == GameEvent::ProjectileShoot
    ||| event == GameEvent::Step
    ||| event == GameEvent::Swim
    ||| event == GameEvent::ItemInteractStart
    ||| event == GameEvent::ItemInteractFinish
}

/// The event with which amethyst answers a frequency.
pub open spec fn resonance_of(frequency: u8) -> Option<GameEvent> {
    if frequency == 1 {
        Some(GameEvent::Resonate1)
    } else if frequency == 2 {
        Some(GameEvent::Resonate2)
    } else if frequency == 3 {
        Some(GameEvent::Resonate3)
    } else if frequency == 4 {
        Some(GameEvent::Resonate4)
    } else if frequency == 5 {
        Some(GameEvent::Resonate5)
    } else if frequency == 6 {
        Some(GameEvent::Resonate6)
    } else if frequency == 7 {
        Some(GameEvent::Resonate7)
    } else if frequency == 8 {
        Some(GameEvent::Resonate8)
    } else if frequency == 9 {
        Some(GameEvent::Resonate9)
    } else if frequency == 10 {
        Some(GameEvent::Resonate10)
    } else if frequency == 11 {
        Some(GameEvent::Resonate11)
    } else if frequency == 12 {
        Some(GameEvent::Resonate12)
    } else if frequency == 13 {
        Some(GameEvent::Resonate13)
    } else if frequency == 14 {
        Some(GameEvent::Resonate14)
    } else if frequency == 15 {
        Some(GameEvent::Resonate15)
    } else {
        None
    }
}

/// The frequency of a game event, which a comparator shows.
#[must_use]
pub fn game_event_frequency(event: &GameEvent) -> (r: u8)
    ensures
        r == frequency_of(*event),
        r <= 15,
{
    match event {
        GameEvent::Step | GameEvent::Swim | GameEvent::Flap | GameEvent::Resonate1 => 1,
        GameEvent::ProjectileLand
        | GameEvent::HitGround
        | GameEvent::Bounce
        | GameEvent::Splash
        | GameEvent::Resonate2 => 2,
        GameEvent::ItemInteractFinish
        | GameEvent::ProjectileShoot
        | GameEvent::InstrumentPlay
        | GameEvent::Resonate3 => 3,
        GameEvent::EntityAction
        | GameEvent::ElytraGlide
        | GameEvent::Unequip
        | GameEvent::Resonate4 => 4,
        GameEvent::EntityDismount | GameEvent::Equip | GameEvent::Resonate5 => 5,
        GameEvent::EntityMount
        | GameEvent::EntityInteract
        | GameEvent::Shear
        | GameEvent::Resonate6 => 6,
        GameEvent::EntityDamage | GameEvent::Resonate7 => 7,
        GameEvent::Drink | GameEvent::Eat | GameEvent::Resonate8 => 8,
        GameEvent::ContainerClose
        | GameEvent::BlockClose
        | GameEvent::BlockDeactivate
        | GameEvent::BlockDetach
        | GameEvent::Resonate9 => 9,
        GameEvent::ContainerOpen
        | GameEvent::BlockOpen
        | GameEvent::BlockActivate
        | GameEvent::BlockAttach
        | GameEvent::PrimeFuse
        | GameEvent::NoteBlockPlay
        | GameEvent::Resonate10 => 10,
        GameEvent::BlockChange | GameEvent::Resonate11 => 11,
        GameEvent::BlockDestroy | GameEvent::FluidPickup | GameEvent::Resonate12 => 12,
        GameEvent::BlockPlace | GameEvent::FluidPlace | GameEvent::Resonate13 => 13,
        GameEvent::EntityPlace
        | GameEvent::LightningStrike
        | GameEvent::Teleport
        | GameEvent::Resonate14 => 14,
        GameEvent::EntityDie | GameEvent::Explode | GameEvent::Resonate15 => 15,
        GameEvent::SculkSensorTendrilsClicking
        | GameEvent::Shriek
        | GameEvent::ItemInteractStart
        | GameEvent::JukeboxPlay
        | GameEvent::JukeboxStopPlay => 0,
    }
}

/// Whether sneaking keeps an event from being heard.
#[must_use]
pub fn ignored_when_sneaking(event: &GameEvent) -> (r: bool)
    ensures
        r == quiet_when_sneaking(*event),
{
    matches!(
        event,
        GameEvent::HitGround
            | GameEvent::ProjectileShoot
            | GameEvent::Step
            | GameEvent::Swim
            | GameEvent::ItemInteractStart
            | GameEvent::ItemInteractFinish
    )
}

/// The event with which amethyst answers a frequency.
pub fn resonate_event(frequency: u8) -> (r: Option<GameEvent>)
    ensures
        r == resonance_of(frequency),
{
    match frequency {
        1 => Some(GameEvent::Resonate1),
        2 => Some(GameEvent::Resonate2),
        3 => Some(GameEvent::Resonate3),
        4 => Some(GameEvent::Resonate4),
        5 => Some(GameEvent::Resonate5),
        6 => Some(GameEvent::Resonate6),
        7 => Some(GameEvent::Resonate7),
        8 => Some(GameEvent::Resonate8),
        9 => Some(GameEvent::Resonate9),
        10 => Some(GameEvent::Resonate10),
        11 => Some(GameEvent::Resonate11),
        12 => Some(GameEvent::Resonate12),
        13 => Some(GameEvent::Resonate13),
        14 => Some(GameEvent::Resonate14),
        15 => Some(GameEvent::Resonate15),
        _ => None,
    }
}

/// Amethyst answers exactly the frequencies from 1 to 15, and keeps them: the
/// event that answers a frequency has that frequency. Sneaking does not
/// silence an answer.
pub proof fn resonance_keeps_frequency(frequency: u8)
    ensures
        resonance_of(frequency) is Some <==> 1 <= frequency <= 15,
        resonance_of(frequency) matches Some(event) ==> frequency_of(event) == frequency
            && !quiet_when_sneaking(event),
{
}

/// An event that some sensor listens to has a frequency that amethyst
/// answers; those that none listens to are five.
pub proof fn heard_events_resonate(event: GameEvent)
    ensures
        frequency_of(event) <= 15,
        frequency_of(event) == 0 <==> resonance_of(frequency_of(event)) is None,
        frequency_of(event) == 0 <==> {
            ||| event == GameEvent::SculkSensorTendrilsClicking
            ||| event == GameEvent::Shriek
            ||| event == GameEvent::ItemInteractStart
            ||| event == GameEvent::JukeboxPlay
            ||| event == GameEvent::JukeboxStopPlay
        },
{
}

/// Which events have which frequency, from the weakest to the strongest.
pub proof fn events_of_each_frequency(event: GameEvent)
    ensures
        frequency_of(event) == 1 <==> event is Step || event is Swim || event is Flap
            || event is Resonate1,
        frequency_of(event) == 2 <==> event is ProjectileLand || event is HitGround
            || event is Bounce || event is Splash || event is Resonate2,
        frequency_of(event) == 3 <==> event is ItemInteractFinish || event is ProjectileShoot
            || event is InstrumentPlay || event is Resonate3,
        frequency_of(event) == 4 <==> event is EntityAction || event is ElytraGlide
            || event is Unequip || event is Resonate4,
        frequency_of(event) == 5 <==> event is EntityDismount || event is Equip
            || event is Resonate5,
        frequency_of(event) == 6 <==> event is EntityMount || event is EntityInteract
            || event is Shear || event is Resonate6,
        frequency_of(event) == 7 <==> event is EntityDamage || event is Resonate7,
        frequency_of(event) == 8 <==> event is Drink || event is Eat || event is Resonate8,
        frequency_of(event) == 9 <==> event is ContainerClose || event is BlockClose
            || event is BlockDeactivate || event is BlockDetach || event is Resonate9,
        frequency_of(event) == 10 <==> event is ContainerOpen || event is BlockOpen
            || event is BlockActivate || event is BlockAttach || event is PrimeFuse
            || event is NoteBlockPlay || event is Resonate10,
        frequency_of(event) == 11 <==> event is BlockChange || event is Resonate11,
        frequency_of(event) == 12 <==> event is BlockDestroy || event is FluidPickup
            || event is Resonate12,
        frequency_of(event) == 13 <==> event is BlockPlace || event is FluidPlace
            || event is Resonate13,
        frequency_of(event) == 14 <==> event is EntityPlace || event is LightningStrike
            || event is Teleport || event is Resonate14,
        frequency_of(event) == 15 <==> event is EntityDie || event is Explode
            || event is Resonate15,
        frequency_of(event) <= 15,
{
}

/// Sneaking silences these six events, and no others.
pub proof fn sneaking_silences_six_events(event: GameEvent)
    ensures
        quiet_when_sneaking(event) <==> event is HitGround || event is ProjectileShoot
            || event is Step || event is Swim || event is ItemInteractStart
            || event is ItemInteractFinish,
{
}

/// Each frequency has an event of its own with which amethyst answers it, and each
/// such event answers one frequency.
pub proof fn each_frequency_has_its_resonance(frequency: u8)
    ensures
        resonance_of(frequency) == Some(GameEvent::Resonate1) <==> frequency == 1,
        resonance_of(frequency) == Some(GameEvent::Resonate2) <==> frequency == 2,
        resonance_of(frequency) == Some(GameEvent::Resonate3) <==> frequency == 3,
        resonance_of(frequency) == Some(GameEvent::Resonate4) <==> frequency == 4,
        resonance_of(frequency) == Some(GameEvent::Resonate5) <==> frequency == 5,
        resonance_of(frequency) == Some(GameEvent::Resonate6) <==> frequency == 6,
        resonance_of(frequency) == Some(GameEvent::Resonate7) <==> frequency == 7,
        resonance_of(frequency) == Some(GameEvent::Resonate8) <==> frequency == 8,
        resonance_of(frequency) == Some(GameEvent::Resonate9) <==> frequency == 9,
        resonance_of(frequency) == Some(GameEvent::Resonate10) <==> frequency == 10,
        resonance_of(frequency) == Some(GameEvent::Resonate11) <==> frequency == 11,
        resonance_of(frequency) == Some(GameEvent::Resonate12) <==> frequency == 12,
        resonance_of(frequency) == Some(GameEvent::Resonate13) <==> frequency == 13,
        resonance_of(frequency) == Some(GameEvent::Resonate14) <==> frequency == 14,
        resonance_of(frequency) == Some(GameEvent::Resonate15) <==> frequency == 15,
        resonance_of(frequency) is None <==> frequency == 0 || frequency > 15,
{
}

/// Of nobody nothing is known: no player, not sneaking, no sculk and no warden.
pub proof fn nobody_is_nobody(source: VibrationSource)
    ensures
        source == VibrationSource::nobody() <==> !source.is_player && !source.is_sneaking
            && !source.is_sculk_or_warden,
{
}

} // verus!
