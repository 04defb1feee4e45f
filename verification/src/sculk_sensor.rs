//! The sculk sensor block: its states, its signals and its life cycle.
use vstd::prelude::*;

use crate::block::BlockId;
use crate::position::{BlockDirection, HorizontalFacing};

verus! {

pub const SCULK_SENSOR_ACTIVE_TICKS: u8 = 30;

pub const SCULK_SENSOR_COOLDOWN_TICKS: u8 = 10;

pub const CALIBRATED_ACTIVE_TICKS: u8 = 10;

pub const CALIBRATED_COOLDOWN_TICKS: u8 = 10;

/// What a sensor is doing.
#[derive(Clone, Copy, Debug, PartialEq, Eq, Structural)]
pub enum SculkSensorPhase {
    Inactive,
    Active,
    Cooldown,
}

/// The block state of a sculk sensor.
#[derive(Clone, Copy, Debug, PartialEq, Eq, Structural)]
pub struct SculkSensorLikeProperties {
    pub power: u8,
    pub sculk_sensor_phase: SculkSensorPhase,
    pub waterlogged: bool,
}

/// The block state of a calibrated sculk sensor.
#[derive(Clone, Copy, Debug, PartialEq, Eq, Structural)]
pub struct CalibratedSculkSensorLikeProperties {
    pub facing: HorizontalFacing,
    pub power: u8,
    pub sculk_sensor_phase: SculkSensorPhase,
    pub waterlogged: bool,
}

/// The state of a block that may be a sensor.
#[derive(Clone, Copy, Debug, PartialEq, Eq, Structural)]
pub enum SensorState {
    Plain(SculkSensorLikeProperties),
    Calibrated(CalibratedSculkSensorLikeProperties),
    NoSensor,
}

/// The block entity of a block that may be a sensor.
#[derive(Clone, Copy, Debug, PartialEq, Eq, Structural)]
pub enum EntityKind {
    Plain,
    Calibrated,
    Other,
}

/// The sounds of a sensor.
#[derive(Clone, Copy, Debug, PartialEq, Eq, Structural)]
pub enum Sound {
    BlockSculkSensorClicking,
    BlockSculkSensorClickingStop,
}

/// What a sensor does to the world around it.
#[derive(Clone, Copy, Debug, PartialEq, Eq, Structural)]
pub enum SensorEffect {
    /// The sensor's block entity keeps the frequency.
    RecordFrequency(i32),
    PlaySound(Sound),
    /// The block takes a new state, and all who watch it are notified.
    SetState(SensorState),
    UpdateNeighbors,
    /// The block is ticked after so many ticks, with normal priority.
    ScheduleTick(u8),
    RemoveBlockEntity,
}

impl SensorState {
    pub open spec fn phase(self) -> Option<SculkSensorPhase> {
        match self {
            SensorState::Plain(p) => Some(p.sculk_sensor_phase),
            SensorState::Calibrated(p) => Some(p.sculk_sensor_phase),
            SensorState::NoSensor => None,
        }
    }

    pub open spec fn power(self) -> u8 {
        match self {
            SensorState::Plain(p) => p.power,
            SensorState::Calibrated(p) => p.power,
            SensorState::NoSensor => 0,
        }
    }

    pub open spec fn waterlogged(self) -> bool {
        match self {
            SensorState::Plain(p) => p.waterlogged,
            SensorState::Calibrated(p) => p.waterlogged,
            SensorState::NoSensor => false,
        }
    }

    /// The same sensor in another phase, with another power.
    pub open spec fn turned(self, phase: SculkSensorPhase, power: u8) -> SensorState {
        match self {
            SensorState::Plain(p) => SensorState::Plain(
                SculkSensorLikeProperties { power, sculk_sensor_phase: phase, ..p },
            ),
            SensorState::Calibrated(p) => SensorState::Calibrated(
                CalibratedSculkSensorLikeProperties { power, sculk_sensor_phase: phase, ..p },
            ),
            SensorState::NoSensor => SensorState::NoSensor,
        }
    }

    /// A sensor has power exactly while it is active, and at most 15.
    pub open spec fn coherent(self) -> bool {
        match self.phase() {
            Some(SculkSensorPhase::Active) => 1 <= self.power() <= 15,
            Some(_) => self.power() == 0,
            None => true,
        }
    }

    /// How long an active sensor stays active.
    pub open spec fn active_ticks(self) -> u8 {
        if self is Calibrated {
            CALIBRATED_ACTIVE_TICKS
        } else {
            SCULK_SENSOR_ACTIVE_TICKS
        }
    }

    /// How long it then rests.
    pub open spec fn cooldown_ticks(self) -> u8 {
        if self is Calibrated {
            CALIBRATED_COOLDOWN_TICKS
        } else {
            SCULK_SENSOR_COOLDOWN_TICKS
        }
    }

    fn turn(self, phase: SculkSensorPhase, power: u8) -> (r: SensorState)
        ensures
            r == self.turned(phase, power),
    {
        match self {
            SensorState::Plain(p) => SensorState::Plain(
                SculkSensorLikeProperties {
                    power,
                    sculk_sensor_phase: phase,
                    waterlogged: p.waterlogged,
                },
            ),
            SensorState::Calibrated(p) => SensorState::Calibrated(
                CalibratedSculkSensorLikeProperties {
                    facing: p.facing,
                    power,
                    sculk_sensor_phase: phase,
                    waterlogged: p.waterlogged,
                },
            ),
            SensorState::NoSensor => SensorState::NoSensor,
        }
    }
}

/// A sound as effects: none under water.
pub open spec fn sound_effects(sound: Sound, waterlogged: bool) -> Seq<SensorEffect> {
    if waterlogged {
        seq![]
    } else {
        seq![SensorEffect::PlaySound(sound)]
    }
}

/// Play sensor click sound if not waterlogged.
pub fn play_sensor_click(waterlogged: bool) -> (r: Vec<SensorEffect>)
    ensures
        r@ == sound_effects(Sound::BlockSculkSensorClicking, waterlogged),
{
    if waterlogged {
        return Vec::new();
    }
    vec![SensorEffect::PlaySound(Sound::BlockSculkSensorClicking)]
}

/// Play the sound of a sensor that stops clicking if not waterlogged.
pub fn play_sensor_click_stop(waterlogged: bool) -> (r: Vec<SensorEffect>)
    ensures
        r@ == sound_effects(Sound::BlockSculkSensorClickingStop, waterlogged),
{
    if waterlogged {
        return Vec::new();
    }
    vec![SensorEffect::PlaySound(Sound::BlockSculkSensorClickingStop)]
}

/// The frequency that a sensor's block entity keeps, if the block has one.
pub open spec fn record_effects(entity: Option<EntityKind>, frequency: u8) -> Seq<SensorEffect> {
    if entity == Some(EntityKind::Plain) || entity == Some(EntityKind::Calibrated) {
        seq![SensorEffect::RecordFrequency(frequency as i32)]
    } else {
        seq![]
    }
}

/// The power brought between 1 and 15.
pub open spec fn signal(power: u8) -> u8 {
    if power < 1 {
        1
    } else if power > 15 {
        15
    } else {
        power
    }
}

/// The effects of a trigger on the block itself: an inactive sensor becomes
/// active, anything else stays as it is.
pub open spec fn activation_effects(state: SensorState, power: u8) -> Seq<SensorEffect> {
    if state.phase() == Some(SculkSensorPhase::Inactive) {
        sound_effects(Sound::BlockSculkSensorClicking, state.waterlogged()) + seq![
            SensorEffect::SetState(state.turned(SculkSensorPhase::Active, signal(power))),
            SensorEffect::UpdateNeighbors,
            SensorEffect::ScheduleTick(state.active_ticks()),
        ]
    } else {
        seq![]
    }
}

/// The effects of a trigger.
pub open spec fn trigger_effects(
    state: SensorState,
    entity: Option<EntityKind>,
    power: u8,
    frequency: u8,
) -> Seq<SensorEffect> {
    record_effects(entity, frequency) + activation_effects(state, power)
}

/// The effects of a scheduled tick: an active sensor goes into its cooldown,
/// and from there becomes inactive.
pub open spec fn tick_effects(state: SensorState) -> Seq<SensorEffect> {
    match state.phase() {
        Some(SculkSensorPhase::Active) => sound_effects(
            Sound::BlockSculkSensorClickingStop,
            state.waterlogged(),
        ) + seq![
            SensorEffect::SetState(state.turned(SculkSensorPhase::Cooldown, 0)),
            SensorEffect::ScheduleTick(state.cooldown_ticks()),
            SensorEffect::UpdateNeighbors,
        ],
        Some(SculkSensorPhase::Cooldown) => seq![
            SensorEffect::SetState(state.turned(SculkSensorPhase::Inactive, 0)),
            SensorEffect::UpdateNeighbors,
        ],
        _ => seq![],
    }
}

/// The signal that a sensor gives: its power while it is active.
pub open spec fn emitted(state: SensorState) -> u8 {
    if state.phase() == Some(SculkSensorPhase::Active) {
        state.power()
    } else {
        0
    }
}

/// The signal toward a neighbor, from which `direction` leads to the sensor:
/// none on the input side of a calibrated sensor, the one that it faces.
pub open spec fn weak_power(state: SensorState, direction: BlockDirection) -> u8 {
    match state {
        SensorState::Calibrated(p) if direction == p.facing.reversed().direction() => 0,
        _ => emitted(state),
    }
}

/// The signal through the block below, from which the sensor lies up.
pub open spec fn strong_power(state: SensorState, direction: BlockDirection) -> u8 {
    if direction == BlockDirection::Up {
        emitted(state)
    } else {
        0
    }
}

/// The frequency that a comparator shows.
pub open spec fn comparator_output(last_frequency: Option<i32>) -> u8 {
    match last_frequency {
        Some(f) => if f < 0 {
            0
        } else if f > 15 {
            15
        } else {
            f as u8
        },
        None => 0,
    }
}

/// The state of a sensor that has just been placed: cooling down, as it would
/// after a vibration.
pub open spec fn placed_state(
    block: BlockId,
    facing: HorizontalFacing,
    waterlogged: bool,
) -> SensorState {
    if block == BlockId::CalibratedSculkSensor {
        SensorState::Calibrated(
            CalibratedSculkSensorLikeProperties {
                facing,
                power: 0,
                sculk_sensor_phase: SculkSensorPhase::Cooldown,
                waterlogged,
            },
        )
    } else {
        SensorState::Plain(
            SculkSensorLikeProperties {
                power: 0,
                sculk_sensor_phase: SculkSensorPhase::Cooldown,
                waterlogged,
            },
        )
    }
}

/// The behaviour of both sensor blocks.
pub struct SculkSensorBlock;

impl SculkSensorBlock {
    /// The blocks that behave so.
    pub fn ids() -> (r: Vec<BlockId>)
        ensures
            r@ == seq![BlockId::SculkSensor, BlockId::CalibratedSculkSensor],
    {
        vec![BlockId::SculkSensor, BlockId::CalibratedSculkSensor]
    }

    /// Activate a sensor that is currently inactive (power = distance-based strength).
    pub fn trigger(
        state: SensorState,
        entity: Option<EntityKind>,
        power: u8,
        frequency: u8,
    ) -> (r: Vec<SensorEffect>)
        ensures
            r@ == trigger_effects(state, entity, power, frequency),
    {
        let mut effects: Vec<SensorEffect> = Vec::new();
        match entity {
            Some(EntityKind::Plain) | Some(EntityKind::Calibrated) => {
                effects.push(SensorEffect::RecordFrequency(frequency as i32));
            },
            _ => {},
        }
        let (phase, waterlogged, ticks): (SculkSensorPhase, bool, u8) = match state {
            SensorState::Plain(p) => (
                p.sculk_sensor_phase,
                p.waterlogged,
                SCULK_SENSOR_ACTIVE_TICKS,
            ),
            SensorState::Calibrated(p) => (
                p.sculk_sensor_phase,
                p.waterlogged,
                CALIBRATED_ACTIVE_TICKS,
            ),
            SensorState::NoSensor => {
                return effects;
            },
        };
        if phase != SculkSensorPhase::Inactive {
            return effects;
        }
        let clamped: u8 = if power < 1 {
            1
        } else if power > 15 {
            15
        } else {
            power
        };
        let mut click = play_sensor_click(waterlogged);
        effects.append(&mut click);
        effects.push(SensorEffect::SetState(state.turn(SculkSensorPhase::Active, clamped)));
        effects.push(SensorEffect::UpdateNeighbors);
        effects.push(SensorEffect::ScheduleTick(ticks));
        assert(effects@ =~= trigger_effects(state, entity, power, frequency));
        effects
    }

    /// The state in which a sensor is placed. It starts in cooldown, so that
    /// its own placement does not trigger it.
    pub fn on_place(block: BlockId, facing: HorizontalFacing, waterlogged: bool) -> (r: SensorState)
        ensures
            r == placed_state(block, facing, waterlogged),
            r.coherent(),
            r is Calibrated <==> block is CalibratedSculkSensor,
            r matches SensorState::Calibrated(p) ==> p.facing == facing,
            r.waterlogged() == waterlogged,
    {
        if block == BlockId::CalibratedSculkSensor {
            SensorState::Calibrated(
                CalibratedSculkSensorLikeProperties {
                    facing,
                    power: 0,
                    sculk_sensor_phase: SculkSensorPhase::Cooldown,
                    waterlogged,
                },
            )
        } else {
            SensorState::Plain(
                SculkSensorLikeProperties {
                    power: 0,
                    sculk_sensor_phase: SculkSensorPhase::Cooldown,
                    waterlogged,
                },
            )
        }
    }

    /// What follows a placement: the tick that ends the first cooldown.
    pub fn placed() -> (r: Vec<SensorEffect>)
        ensures
            r@ == seq![SensorEffect::ScheduleTick(SCULK_SENSOR_COOLDOWN_TICKS)],
            r@ == seq![SensorEffect::ScheduleTick(10)],
    {
        vec![SensorEffect::ScheduleTick(SCULK_SENSOR_COOLDOWN_TICKS)]
    }

    /// What follows when a sensor is broken.
    pub fn broken() -> (r: Vec<SensorEffect>)
        ensures
            r@ == seq![SensorEffect::RemoveBlockEntity],
    {
        vec![SensorEffect::RemoveBlockEntity]
    }

    /// A sensor is a source of redstone power.
    pub fn emits_redstone_power() -> (r: bool)
        ensures
            r,
    {
        true
    }

    pub fn get_weak_redstone_power(state: SensorState, direction: BlockDirection) -> (r: u8)
        ensures
            r == weak_power(state, direction),
    {
        match state {
            SensorState::Plain(p) => {
                if p.sculk_sensor_phase == SculkSensorPhase::Active {
                    p.power
                } else {
                    0
                }
            },
            SensorState::Calibrated(p) => {
                // The input (amethyst) face does not emit.
                if direction == p.facing.opposite().to_block_direction() {
                    return 0;
                }
                if p.sculk_sensor_phase == SculkSensorPhase::Active {
                    p.power
                } else {
                    0
                }
            },
            SensorState::NoSensor => 0,
        }
    }

    pub fn get_strong_redstone_power(state: SensorState, direction: BlockDirection) -> (r: u8)
        ensures
            r == strong_power(state, direction),
    {
        if direction != BlockDirection::Up {
            return 0;
        }
        match state {
            SensorState::Plain(p) => {
                if p.sculk_sensor_phase == SculkSensorPhase::Active {
                    p.power
                } else {
                    0
                }
            },
            SensorState::Calibrated(p) => {
                if p.sculk_sensor_phase == SculkSensorPhase::Active {
                    p.power
                } else {
                    0
                }
            },
            SensorState::NoSensor => 0,
        }
    }

    /// The frequency of the last vibration, as the sensor's block entity keeps
    /// it; without such an entity, 0.
    pub fn get_comparator_output(last_frequency: Option<i32>) -> (r: Option<u8>)
        ensures
            r == Some(comparator_output(last_frequency)),
    {
        match last_frequency {
            Some(f) => {
                if f < 0 {
                    Some(0)
                } else if f > 15 {
                    Some(15)
                } else {
                    Some(f as u8)
                }
            },
            None => Some(0),
        }
    }

    /// The next step in the life cycle of a sensor.
    pub fn on_scheduled_tick(state: SensorState) -> (r: Vec<SensorEffect>)
        ensures
            r@ == tick_effects(state),
    {
        let (phase, waterlogged, ticks): (SculkSensorPhase, bool, u8) = match state {
            SensorState::Plain(p) => (
                p.sculk_sensor_phase,
                p.waterlogged,
                SCULK_SENSOR_COOLDOWN_TICKS,
            ),
            SensorState::Calibrated(p) => (
                p.sculk_sensor_phase,
                p.waterlogged,
                CALIBRATED_COOLDOWN_TICKS,
            ),
            SensorState::NoSensor => {
                return Vec::new();
            },
        };
        let mut effects: Vec<SensorEffect> = Vec::new();
        match phase {
            SculkSensorPhase::Active => {
                let mut click = play_sensor_click_stop(waterlogged);
                effects.append(&mut click);
                effects.push(SensorEffect::SetState(state.turn(SculkSensorPhase::Cooldown, 0)));
                effects.push(SensorEffect::ScheduleTick(ticks));
                effects.push(SensorEffect::UpdateNeighbors);
            },
            SculkSensorPhase::Cooldown => {
                effects.push(SensorEffect::SetState(state.turn(SculkSensorPhase::Inactive, 0)));
                effects.push(SensorEffect::UpdateNeighbors);
            },
            SculkSensorPhase::Inactive => {},
        }
        assert(effects@ =~= tick_effects(state));
        effects
    }
}

/// The state of a block after some effects: the last one that was set.
pub open spec fn state_after(state: SensorState, effects: Seq<SensorEffect>) -> SensorState
    decreases effects.len(),
{
    if effects.len() == 0 {
        state
    } else {
        match effects.last() {
            SensorEffect::SetState(s) => s,
            _ => state_after(state, effects.drop_last()),
        }
    }
}

/// The delay of the tick that was scheduled last, if any was.
pub open spec fn scheduled_after(effects: Seq<SensorEffect>) -> Option<u8>
    decreases effects.len(),
{
    if effects.len() == 0 {
        None
    } else {
        match effects.last() {
            SensorEffect::ScheduleTick(ticks) => Some(ticks),
            _ => scheduled_after(effects.drop_last()),
        }
    }
}

/// The frequency that was recorded last, if any was.
pub open spec fn recorded_after(effects: Seq<SensorEffect>) -> Option<i32>
    decreases effects.len(),
{
    if effects.len() == 0 {
        None
    } else {
        match effects.last() {
            SensorEffect::RecordFrequency(frequency) => Some(frequency),
            _ => recorded_after(effects.drop_last()),
        }
    }
}

/// Effects that record nothing leave what was recorded before them.
pub proof fn lemma_recorded_before(record: Seq<SensorEffect>, rest: Seq<SensorEffect>)
    requires
        forall|i: int| 0 <= i < rest.len() ==> !((#[trigger] rest[i]) is RecordFrequency),
    ensures
        recorded_after(record + rest) == recorded_after(record),
    decreases rest.len(),
{
    let all = record + rest;
    if rest.len() > 0 {
        assert(all.last() == rest.last());
        assert(all.drop_last() =~= record + rest.drop_last());
        lemma_recorded_before(record, rest.drop_last());
    } else {
        assert(all =~= record);
    }
}

/// Effects that set no state and schedule no tick count for nothing before
/// others.
pub proof fn lemma_after_quiet(state: SensorState, quiet: Seq<SensorEffect>, rest: Seq<SensorEffect>)
    requires
        forall|i: int|
            0 <= i < quiet.len() ==> !((#[trigger] quiet[i]) is SetState)
                && !(quiet[i] is ScheduleTick),
    ensures
        state_after(state, quiet + rest) == state_after(state, rest),
        scheduled_after(quiet + rest) == scheduled_after(rest),
    decreases quiet.len() + rest.len(),
{
    let all = quiet + rest;
    if rest.len() > 0 {
        assert(all.last() == rest.last());
        assert(all.drop_last() =~= quiet + rest.drop_last());
        lemma_after_quiet(state, quiet, rest.drop_last());
    } else if quiet.len() > 0 {
        assert(all.last() == quiet.last());
        assert(all.drop_last() =~= quiet.drop_last() + rest);
        lemma_after_quiet(state, quiet.drop_last(), rest);
    }
}

/// What a list of three effects comes to.
proof fn lemma_after_three(state: SensorState, a: SensorEffect, b: SensorEffect, c: SensorEffect)
    ensures
        state_after(state, seq![a, b, c]) == match c {
            SensorEffect::SetState(s) => s,
            _ => match b {
                SensorEffect::SetState(s) => s,
                _ => match a {
                    SensorEffect::SetState(s) => s,
                    _ => state,
                },
            },
        },
        scheduled_after(seq![a, b, c]) == match c {
            SensorEffect::ScheduleTick(t) => Some(t),
            _ => match b {
                SensorEffect::ScheduleTick(t) => Some(t),
                _ => match a {
                    SensorEffect::ScheduleTick(t) => Some(t),
                    _ => None,
                },
            },
        },
{
    assert(seq![a, b, c].drop_last() =~= seq![a, b]);
    assert(seq![a, b].drop_last() =~= seq![a]);
    assert(seq![a].drop_last() =~= seq![]);
    reveal_with_fuel(state_after, 4);
    reveal_with_fuel(scheduled_after, 4);
}

/// What a trigger does to the state of a block: an inactive sensor becomes
/// active, with a power from 1 to 15, and will be ticked; anything else keeps
/// its state, and no tick is scheduled.
pub proof fn trigger_activates_only_inactive(
    state: SensorState,
    entity: Option<EntityKind>,
    power: u8,
    frequency: u8,
)
    ensures
        ({
            let effects = trigger_effects(state, entity, power, frequency);
            if state.phase() == Some(SculkSensorPhase::Inactive) {
                &&& state_after(state, effects) == state.turned(
                    SculkSensorPhase::Active,
                    signal(power),
                )
                &&& scheduled_after(effects) == Some(state.active_ticks())
            } else {
                &&& state_after(state, effects) == state
                &&& scheduled_after(effects) is None
            }
        }),
{
    let record = record_effects(entity, frequency);
    let rest = activation_effects(state, power);
    lemma_after_quiet(state, record, rest);
    if state.phase() == Some(SculkSensorPhase::Inactive) {
        let sound = sound_effects(Sound::BlockSculkSensorClicking, state.waterlogged());
        let set = SensorEffect::SetState(state.turned(SculkSensorPhase::Active, signal(power)));
        let tick = SensorEffect::ScheduleTick(state.active_ticks());
        lemma_after_quiet(state, sound, seq![set, SensorEffect::UpdateNeighbors, tick]);
        lemma_after_three(state, set, SensorEffect::UpdateNeighbors, tick);
    }
}

/// What a tick does to the state of a block: an active sensor cools down and
/// will be ticked again, a cooling one becomes inactive, and nothing else
/// changes.
pub proof fn tick_steps_through_cooldown(state: SensorState)
    ensures
        ({
            let effects = tick_effects(state);
            match state.phase() {
                Some(SculkSensorPhase::Active) => {
                    &&& state_after(state, effects) == state.turned(SculkSensorPhase::Cooldown, 0)
                    &&& scheduled_after(effects) == Some(state.cooldown_ticks())
                },
                Some(SculkSensorPhase::Cooldown) => {
                    &&& state_after(state, effects) == state.turned(SculkSensorPhase::Inactive, 0)
                    &&& scheduled_after(effects) is None
                },
                _ => {
                    &&& state_after(state, effects) == state
                    &&& scheduled_after(effects) is None
                },
            }
        }),
{
    match state.phase() {
        Some(SculkSensorPhase::Active) => {
            let sound = sound_effects(Sound::BlockSculkSensorClickingStop, state.waterlogged());
            let set = SensorEffect::SetState(state.turned(SculkSensorPhase::Cooldown, 0));
            let tick = SensorEffect::ScheduleTick(state.cooldown_ticks());
            lemma_after_quiet(state, sound, seq![set, tick, SensorEffect::UpdateNeighbors]);
            lemma_after_three(state, set, tick, SensorEffect::UpdateNeighbors);
        },
        Some(SculkSensorPhase::Cooldown) => {
            let set = SensorEffect::SetState(state.turned(SculkSensorPhase::Inactive, 0));
            let effects = seq![set, SensorEffect::UpdateNeighbors];
            assert(effects.drop_last() =~= seq![set]);
            assert(seq![set].drop_last() =~= seq![]);
            reveal_with_fuel(state_after, 3);
            reveal_with_fuel(scheduled_after, 3);
        },
        _ => {},
    }
}

/// A sensor keeps its power in step with its phase, through triggers and
/// ticks.
pub proof fn sensor_stays_coherent(
    state: SensorState,
    entity: Option<EntityKind>,
    power: u8,
    frequency: u8,
)
    requires
        state.coherent(),
    ensures
        state_after(state, trigger_effects(state, entity, power, frequency)).coherent(),
        state_after(state, tick_effects(state)).coherent(),
{
    trigger_activates_only_inactive(state, entity, power, frequency);
    tick_steps_through_cooldown(state);
}

/// The life of a sensor is a cycle: triggered, it is back where it was after
/// two ticks.
pub proof fn sensor_returns_to_rest(
    state: SensorState,
    entity: Option<EntityKind>,
    power: u8,
    frequency: u8,
)
    requires
        state.coherent(),
        state.phase() == Some(SculkSensorPhase::Inactive),
    ensures
        ({
            let active = state_after(state, trigger_effects(state, entity, power, frequency));
            let cooling = state_after(active, tick_effects(active));
            state_after(cooling, tick_effects(cooling)) == state
        }),
{
    trigger_activates_only_inactive(state, entity, power, frequency);
    let active = state_after(state, trigger_effects(state, entity, power, frequency));
    tick_steps_through_cooldown(active);
    let cooling = state_after(active, tick_effects(active));
    tick_steps_through_cooldown(cooling);
}

/// A sensor gives a signal exactly while it is active; a calibrated one never
/// to the block that it faces, and through a block only to the one below.
pub proof fn signals_only_while_active(state: SensorState, direction: BlockDirection)
    requires
        state.coherent(),
    ensures
        emitted(state) > 0 <==> state.phase() == Some(SculkSensorPhase::Active),
        weak_power(state, direction) > 0 ==> state.phase() == Some(SculkSensorPhase::Active),
        strong_power(state, direction) > 0 <==> direction == BlockDirection::Up && state.phase()
            == Some(SculkSensorPhase::Active),
        strong_power(state, direction) <= weak_power(state, direction) <= 15,
        state matches SensorState::Calibrated(p) ==> weak_power(
            state,
            p.facing.reversed().direction(),
        ) == 0,
{
}

/// A sensor that has just been placed gives no signal and is not triggered; its
/// first tick makes it listen.
pub proof fn placed_sensor_rests_first(
    block: BlockId,
    facing: HorizontalFacing,
    waterlogged: bool,
    entity: Option<EntityKind>,
    power: u8,
    frequency: u8,
)
    ensures
        ({
            let state = placed_state(block, facing, waterlogged);
            &&& emitted(state) == 0
            &&& state_after(state, trigger_effects(state, entity, power, frequency)) == state
            &&& state_after(state, tick_effects(state)) == state.turned(
                SculkSensorPhase::Inactive,
                0,
            )
        }),
{
    let state = placed_state(block, facing, waterlogged);
    trigger_activates_only_inactive(state, entity, power, frequency);
    tick_steps_through_cooldown(state);
}

/// An active sensor gives its full power to every neighbor, except that a calibrated
/// one gives none to the neighbor that it faces, from which the sensor lies the
/// opposite way. No other sensor gives any.
pub proof fn active_sensors_signal_on_all_sides_but_their_input(
    state: SensorState,
    direction: BlockDirection,
)
    ensures
        state matches SensorState::Plain(p) ==> {
            &&& p.sculk_sensor_phase is Active ==> weak_power(state, direction) == p.power
            &&& !(p.sculk_sensor_phase is Active) ==> weak_power(state, direction) == 0
        },
        state matches SensorState::Calibrated(p) ==> {
            let input = match p.facing {
                HorizontalFacing::North => direction is South,
                HorizontalFacing::South => direction is North,
                HorizontalFacing::West => direction is East,
                HorizontalFacing::East => direction is West,
            };
            &&& input ==> weak_power(state, direction) == 0
            &&& !input && p.sculk_sensor_phase is Active ==> weak_power(state, direction)
                == p.power
            &&& !(p.sculk_sensor_phase is Active) ==> weak_power(state, direction) == 0
        },
        state is NoSensor ==> weak_power(state, direction) == 0,
{
}

/// Which neighbor is without a signal depends on the facing alone: two directions
/// are treated alike unless one of them is the input of a calibrated sensor.
pub proof fn all_other_sides_are_alike(
    state: SensorState,
    one: BlockDirection,
    other: BlockDirection,
)
    requires
        state matches SensorState::Calibrated(p) ==> {
            &&& one != p.facing.reversed().direction()
            &&& other != p.facing.reversed().direction()
        },
    ensures
        weak_power(state, one) == weak_power(state, other),
{
}

/// Through a block an active sensor signals with its full power, and only through
/// the one below it.
pub proof fn active_sensors_power_the_block_below(state: SensorState, direction: BlockDirection)
    ensures
        !(direction is Up) ==> strong_power(state, direction) == 0,
        direction is Up ==> {
            &&& state matches SensorState::Plain(p) ==> strong_power(state, direction)
                == if p.sculk_sensor_phase is Active {
                p.power
            } else {
                0
            }
            &&& state matches SensorState::Calibrated(p) ==> strong_power(state, direction)
                == if p.sculk_sensor_phase is Active {
                p.power
            } else {
                0
            }
        },
        state is NoSensor ==> strong_power(state, direction) == 0,
{
}

/// A comparator shows every frequency as it is, what is out of its scale as the
/// nearer end of it, and nothing for a block without a sensor's entity.
pub proof fn comparators_show_frequencies(last: Option<i32>)
    ensures
        last is None ==> comparator_output(last) == 0,
        last matches Some(f) ==> {
            &&& 0 <= f <= 15 ==> comparator_output(last) == f
            &&& f < 0 ==> comparator_output(last) == 0
            &&& f > 15 ==> comparator_output(last) == 15
        },
{
}

/// A sensor is placed as it was asked for: of the kind of the block, facing as it was
/// told to if it is calibrated, under water or not, without power, and cooling down.
pub proof fn sensors_are_placed_as_asked(
    block: BlockId,
    facing: HorizontalFacing,
    waterlogged: bool,
)
    ensures
        block is CalibratedSculkSensor ==> (placed_state(block, facing, waterlogged) matches
            SensorState::Calibrated(p) && {
            &&& p.facing == facing
            &&& p.waterlogged == waterlogged
            &&& p.power == 0
            &&& p.sculk_sensor_phase is Cooldown
        }),
        !(block is CalibratedSculkSensor) ==> (placed_state(block, facing, waterlogged) matches
            SensorState::Plain(p) && {
            &&& p.waterlogged == waterlogged
            &&& p.power == 0
            &&& p.sculk_sensor_phase is Cooldown
        }),
{
}

/// A frequency is recorded where a sensor's block entity is, of either kind, and
/// nowhere else.
pub open spec fn recording(entity: Option<EntityKind>, frequency: u8) -> Seq<SensorEffect> {
    match entity {
        Some(EntityKind::Plain) => seq![SensorEffect::RecordFrequency(frequency as i32)],
        Some(EntityKind::Calibrated) => seq![SensorEffect::RecordFrequency(frequency as i32)],
        Some(EntityKind::Other) => seq![],
        None => seq![],
    }
}

/// A sound is heard, unless under water.
pub open spec fn sounding(sound: Sound, waterlogged: bool) -> Seq<SensorEffect> {
    if !waterlogged {
        seq![SensorEffect::PlaySound(sound)]
    } else {
        seq![]
    }
}

/// Everything that a trigger does. A sensor that rests records, clicks, becomes
/// active with the power that it is given, brought between 1 and 15, updates its
/// neighbors, and stays so for 30 ticks, or 10 if it is calibrated; it keeps its
/// facing and its water. Anything else only records.
pub proof fn what_a_trigger_does(
    state: SensorState,
    entity: Option<EntityKind>,
    power: u8,
    frequency: u8,
)
    ensures
        ({
            let effects = trigger_effects(state, entity, power, frequency);
            let record = recording(entity, frequency);
            let s: u8 = if power == 0 {
                1
            } else if power <= 15 {
                power
            } else {
                15
            };
            match state {
                SensorState::Plain(p) if p.sculk_sensor_phase is Inactive => effects == record + sounding(
                        Sound::BlockSculkSensorClicking,
                        p.waterlogged,
                    ) + seq![
                        SensorEffect::SetState(
                            SensorState::Plain(
                                SculkSensorLikeProperties {
                                    power: s,
                                    sculk_sensor_phase: SculkSensorPhase::Active,
                                    waterlogged: p.waterlogged,
                                },
                            ),
                        ),
                        SensorEffect::UpdateNeighbors,
                        SensorEffect::ScheduleTick(30),
                    ],
                SensorState::Calibrated(p) if p.sculk_sensor_phase is Inactive => effects == record + sounding(
                        Sound::BlockSculkSensorClicking,
                        p.waterlogged,
                    ) + seq![
                        SensorEffect::SetState(
                            SensorState::Calibrated(
                                CalibratedSculkSensorLikeProperties {
                                    facing: p.facing,
                                    power: s,
                                    sculk_sensor_phase: SculkSensorPhase::Active,
                                    waterlogged: p.waterlogged,
                                },
                            ),
                        ),
                        SensorEffect::UpdateNeighbors,
                        SensorEffect::ScheduleTick(10),
                    ],
                _ => effects == record,
            }
        }),
{
    let effects = trigger_effects(state, entity, power, frequency);
    let record = recording(entity, frequency);
    assert(record =~= record_effects(entity, frequency));
    let s = signal(power);
    match state {
        SensorState::Plain(p) if p.sculk_sensor_phase is Inactive => {
            let set = SensorEffect::SetState(
                SensorState::Plain(
                    SculkSensorLikeProperties {
                        power: s,
                        sculk_sensor_phase: SculkSensorPhase::Active,
                        waterlogged: p.waterlogged,
                    },
                ),
            );
            assert(effects =~= record + sounding(Sound::BlockSculkSensorClicking, p.waterlogged)
                + seq![set, SensorEffect::UpdateNeighbors, SensorEffect::ScheduleTick(30)]);
        },
        SensorState::Calibrated(p) if p.sculk_sensor_phase is Inactive => {
            let set = SensorEffect::SetState(
                SensorState::Calibrated(
                    CalibratedSculkSensorLikeProperties {
                        facing: p.facing,
                        power: s,
                        sculk_sensor_phase: SculkSensorPhase::Active,
                        waterlogged: p.waterlogged,
                    },
                ),
            );
            assert(effects =~= record + sounding(Sound::BlockSculkSensorClicking, p.waterlogged)
                + seq![set, SensorEffect::UpdateNeighbors, SensorEffect::ScheduleTick(10)]);
        },
        _ => {
            assert(effects =~= record);
        },
    }
}

/// Everything that a scheduled tick does. An active sensor stops clicking, loses its
/// power, cools down for 10 ticks and updates its neighbors; one that cools down
/// rests and updates its neighbors; nothing else changes. Facing and water stay.
pub proof fn what_a_tick_does(state: SensorState)
    ensures
        ({
            let effects = tick_effects(state);
            match state {
                SensorState::Plain(p) => match p.sculk_sensor_phase {
                    SculkSensorPhase::Active => effects == sounding(
                        Sound::BlockSculkSensorClickingStop,
                        p.waterlogged,
                    ) + seq![
                        SensorEffect::SetState(
                            SensorState::Plain(
                                SculkSensorLikeProperties {
                                    power: 0,
                                    sculk_sensor_phase: SculkSensorPhase::Cooldown,
                                    waterlogged: p.waterlogged,
                                },
                            ),
                        ),
                        SensorEffect::ScheduleTick(10),
                        SensorEffect::UpdateNeighbors,
                    ],
                    SculkSensorPhase::Cooldown => effects == seq![
                        SensorEffect::SetState(
                            SensorState::Plain(
                                SculkSensorLikeProperties {
                                    power: 0,
                                    sculk_sensor_phase: SculkSensorPhase::Inactive,
                                    waterlogged: p.waterlogged,
                                },
                            ),
                        ),
                        SensorEffect::UpdateNeighbors,
                    ],
                    SculkSensorPhase::Inactive => effects.len() == 0,
                },
                SensorState::Calibrated(p) => match p.sculk_sensor_phase {
                    SculkSensorPhase::Active => effects == sounding(
                        Sound::BlockSculkSensorClickingStop,
                        p.waterlogged,
                    ) + seq![
                        SensorEffect::SetState(
                            SensorState::Calibrated(
                                CalibratedSculkSensorLikeProperties {
                                    facing: p.facing,
                                    power: 0,
                                    sculk_sensor_phase: SculkSensorPhase::Cooldown,
                                    waterlogged: p.waterlogged,
                                },
                            ),
                        ),
                        SensorEffect::ScheduleTick(10),
                        SensorEffect::UpdateNeighbors,
                    ],
                    SculkSensorPhase::Cooldown => effects == seq![
                        SensorEffect::SetState(
                            SensorState::Calibrated(
                                CalibratedSculkSensorLikeProperties {
                                    facing: p.facing,
                                    power: 0,
                                    sculk_sensor_phase: SculkSensorPhase::Inactive,
                                    waterlogged: p.waterlogged,
                                },
                            ),
                        ),
                        SensorEffect::UpdateNeighbors,
                    ],
                    SculkSensorPhase::Inactive => effects.len() == 0,
                },
                SensorState::NoSensor => effects.len() == 0,
            }
        }),
{
    let effects = tick_effects(state);
    match state {
        SensorState::Plain(p) => {
            if p.sculk_sensor_phase is Active {
                assert(effects =~= sounding(Sound::BlockSculkSensorClickingStop, p.waterlogged)
                    + seq![
                    SensorEffect::SetState(state.turned(SculkSensorPhase::Cooldown, 0)),
                    SensorEffect::ScheduleTick(10),
                    SensorEffect::UpdateNeighbors,
                ]);
            }
        },
        SensorState::Calibrated(p) => {
            if p.sculk_sensor_phase is Active {
                assert(effects =~= sounding(Sound::BlockSculkSensorClickingStop, p.waterlogged)
                    + seq![
                    SensorEffect::SetState(state.turned(SculkSensorPhase::Cooldown, 0)),
                    SensorEffect::ScheduleTick(10),
                    SensorEffect::UpdateNeighbors,
                ]);
            }
        },
        SensorState::NoSensor => {},
    }
}

/// The sounds of a sensor are heard exactly where it is not under water.
pub proof fn sounds_are_heard_above_water(sound: Sound, waterlogged: bool)
    ensures
        waterlogged ==> sound_effects(sound, waterlogged).len() == 0,
        !waterlogged ==> sound_effects(sound, waterlogged) == seq![SensorEffect::PlaySound(sound)],
{
}

} // verus!
