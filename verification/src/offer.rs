//! How a sensor takes a vibration that reaches it.
use vstd::prelude::*;

use crate::binary64::Binary64;
use crate::block::{Block, BlockId};
use crate::distance::{
    arrives_within_range_ticks, center_distance, distance_to_center, range_of, redstone_strength,
    sensor_range, strength, strength_is_a_signal, ticks_to_travel, travel_ticks,
};
use crate::emission::{heard, World};
use crate::event::{frequency_of, resonance_of, resonate_event, GameEvent, VibrationSource};
use crate::particle::{particle_data, spawn_vibration_particle, wire_ticks, VibrationParticle};
use crate::position::{BlockDirection, BlockPos, HorizontalFacing, Vector3};
use crate::sculk_sensor::{
    activation_effects, comparator_output, emitted, lemma_after_quiet, lemma_recorded_before,
    record_effects, recorded_after, scheduled_after, state_after, trigger_activates_only_inactive,
    trigger_effects, EntityKind, SculkSensorBlock, SculkSensorPhase, SensorEffect, SensorState,
};

verus! {

/// What becomes of a vibration at a sensor.
#[derive(Clone, Copy, Debug, PartialEq, Eq, Structural)]
pub enum SensorResponse {
    /// The sensor does not listen to it.
    Ignored,
    /// It is offered to the sensor's block entity, which handles the delay of
    /// its travel.
    Queue { distance: Binary64 },
    /// The block has an entity that is not the sensor's.
    Refused,
    /// Without a block entity, the sensor is triggered at once.
    Trigger { power: u8 },
}

/// A vibration that amethyst sends out in answer to a sensor.
#[derive(Clone, Copy, Debug, PartialEq, Eq, Structural)]
pub struct Resonance {
    pub pos: Vector3,
    pub event: GameEvent,
    pub source: VibrationSource,
}

/// The vibration reaches the sensor, and the sensor is idle.
pub open spec fn listening(
    sensor_pos: BlockPos,
    calibrated: bool,
    source_pos: Vector3,
    phase: SculkSensorPhase,
) -> bool {
    &&& !distance_to_center(source_pos, sensor_pos).above(range_of(calibrated))
    &&& phase == SculkSensorPhase::Inactive
}

/// A calibrated sensor hears only the frequency that its input asks for; with
/// no input signal it hears every one.
pub open spec fn tuned_to(calibration: u8, frequency: u8) -> bool {
    calibration == 0 || calibration == frequency
}

/// The kind of entity that belongs to a sensor.
pub open spec fn entity_of(calibrated: bool) -> EntityKind {
    if calibrated {
        EntityKind::Calibrated
    } else {
        EntityKind::Plain
    }
}

/// What becomes of a vibration at a sensor.
pub open spec fn response(
    sensor_pos: BlockPos,
    calibrated: bool,
    source_pos: Vector3,
    frequency: u8,
    phase: SculkSensorPhase,
    calibration: u8,
    entity: Option<EntityKind>,
) -> SensorResponse {
    let distance = distance_to_center(source_pos, sensor_pos);
    if !listening(sensor_pos, calibrated, source_pos, phase) {
        SensorResponse::Ignored
    } else if calibrated && !tuned_to(calibration, frequency) {
        SensorResponse::Ignored
    } else if entity == Some(entity_of(calibrated)) {
        SensorResponse::Queue { distance }
    } else if entity is Some {
        SensorResponse::Refused
    } else {
        SensorResponse::Trigger { power: strength(distance, range_of(calibrated)) as u8 }
    }
}

/// The sensor took the vibration. `queued` says whether its block entity did,
/// if it was offered there.
pub open spec fn accepted(response: SensorResponse, queued: bool) -> bool {
    match response {
        SensorResponse::Queue { .. } => queued,
        SensorResponse::Trigger { .. } => true,
        _ => false,
    }
}

impl World {
    /// Whether a sensor listens to a vibration that reaches it at all.
    pub fn sensor_listens(
        sensor_pos: BlockPos,
        calibrated: bool,
        source_pos: Vector3,
        phase: SculkSensorPhase,
    ) -> (r: bool)
        ensures
            r == listening(sensor_pos, calibrated, source_pos, phase),
    {
        !center_distance(source_pos, sensor_pos).is_above(sensor_range(calibrated)) && phase
            == SculkSensorPhase::Inactive
    }

    /// Where a calibrated sensor reads its calibration: the neighbor that it
    /// faces, and the direction from there back to the sensor.
    pub fn calibration_input(sensor_pos: BlockPos, facing: HorizontalFacing) -> (r: (
        BlockPos,
        BlockDirection,
    ))
        requires
            BlockPos::fits(sensor_pos.beside(facing.direction())),
        ensures
            r.0.is_at(sensor_pos.beside(facing.direction())),
            r.1 == facing.reversed().direction(),
    {
        let direction = facing.to_block_direction();
        (sensor_pos.offset(direction), direction.opposite())
    }

    /// What becomes of a vibration at a sensor in some phase. `calibration` is
    /// the redstone power at the input of a calibrated sensor, `entity` the
    /// kind of the block entity, if there is one.
    pub fn try_sensor_accept_vibration(
        sensor_pos: BlockPos,
        calibrated: bool,
        source_pos: Vector3,
        frequency: u8,
        phase: SculkSensorPhase,
        calibration: u8,
        entity: Option<EntityKind>,
    ) -> (r: SensorResponse)
        ensures
            r == response(
                sensor_pos,
                calibrated,
                source_pos,
                frequency,
                phase,
                calibration,
                entity,
            ),
    {
        let range = sensor_range(calibrated);
        let distance = center_distance(source_pos, sensor_pos);
        if distance.is_above(range) {
            return SensorResponse::Ignored;
        }
        if phase != SculkSensorPhase::Inactive {
            return SensorResponse::Ignored;
        }
        if calibrated && calibration > 0 && calibration != frequency {
            return SensorResponse::Ignored;
        }
        match entity {
            Some(EntityKind::Calibrated) => {
                if calibrated {
                    SensorResponse::Queue { distance }
                } else {
                    SensorResponse::Refused
                }
            },
            Some(EntityKind::Plain) => {
                if calibrated {
                    SensorResponse::Refused
                } else {
                    SensorResponse::Queue { distance }
                }
            },
            Some(EntityKind::Other) => SensorResponse::Refused,
            None => SensorResponse::Trigger { power: redstone_strength(distance, range) },
        }
    }

    /// The wave from the event to a sensor that took the vibration.
    pub fn vibration_wave(
        source_pos: Vector3,
        sensor_pos: BlockPos,
        response: SensorResponse,
        queued: bool,
    ) -> (r: Option<VibrationParticle>)
        ensures
            r is Some == accepted(response, queued),
            r matches Some(wave) ==> {
                &&& wave.origin == source_pos
                &&& wave.offset == (Vector3 {
                    x: Binary64::of_integer(0),
                    y: Binary64::of_integer(0),
                    z: Binary64::of_integer(0),
                })
                &&& wave.max_speed == Binary64::of_integer(0)
                &&& wave.count == 1
                &&& wave.data@ == particle_data(
                    sensor_pos,
                    wire_ticks(ticks_to_travel(distance_to_center(source_pos, sensor_pos)) as u32),
                )
                &&& wave.long_distance
                &&& wave.always_visible
            },
    {
        let accepted: bool = match response {
            SensorResponse::Queue { .. } => queued,
            SensorResponse::Trigger { .. } => true,
            SensorResponse::Ignored => false,
            SensorResponse::Refused => false,
        };
        if !accepted {
            return None;
        }
        let ticks: u32 = travel_ticks(center_distance(source_pos, sensor_pos));
        Some(spawn_vibration_particle(source_pos, sensor_pos, ticks))
    }

    /// What follows when a vibration arrives at a sensor (after travel delay).
    /// Who caused it makes no difference to the sensor.
    pub fn activate_sculk_sensor(
        state: SensorState,
        entity: Option<EntityKind>,
        frequency: u8,
        distance: Binary64,
        _from_player: bool,
    ) -> (r: Vec<SensorEffect>)
        ensures
            r@ == record_effects(entity, frequency) + trigger_effects(
                state,
                entity,
                strength(distance, range_of(state is Calibrated)) as u8,
                frequency,
            ),
    {
        let calibrated: bool = match state {
            SensorState::Calibrated(_) => true,
            _ => false,
        };
        let power: u8 = redstone_strength(distance, sensor_range(calibrated));
        let mut effects: Vec<SensorEffect> = Vec::new();
        match entity {
            Some(EntityKind::Plain) | Some(EntityKind::Calibrated) => {
                effects.push(SensorEffect::RecordFrequency(frequency as i32));
            },
            _ => {},
        }
        let mut triggered = SculkSensorBlock::trigger(state, entity, power, frequency);
        effects.append(&mut triggered);
        effects
    }

    /// Amethyst resonance: the vibration that a neighbor of an activated
    /// sensor sends out, if it is a resonator.
    pub fn resonate<F: Fn(BlockPos) -> Block>(
        sensor_pos: BlockPos,
        direction: BlockDirection,
        frequency: u8,
        block_at: &F,
    ) -> (r: Option<Resonance>)
        requires
            forall|p: BlockPos| call_requires(*block_at, (p,)),
            resonance_of(frequency) is Some ==> BlockPos::fits(sensor_pos.beside(direction)),
        ensures
            resonance_of(frequency) is None ==> r is None,
            resonance_of(frequency) matches Some(event) ==> exists|p: BlockPos, b: Block|
                {
                    &&& p.is_at(sensor_pos.beside(direction))
                    &&& #[trigger] call_ensures(*block_at, (p,), b)
                    &&& r == if b.resonates() {
                        Some(
                            Resonance {
                                pos: p.centered(),
                                event,
                                source: VibrationSource::nobody(),
                            },
                        )
                    } else {
                        None
                    }
                },
    {
        match resonate_event(frequency) {
            None => None,
            Some(event) => {
                let neighbor = sensor_pos.offset(direction);
                let block = block_at(neighbor);
                if block.vibration_resonator || block.id == BlockId::AmethystBlock {
                    Some(
                        Resonance {
                            pos: neighbor.to_centered(),
                            event,
                            source: VibrationSource::none(),
                        },
                    )
                } else {
                    None
                }
            },
        }
    }
}

/// Which sensors ignore a vibration in range: those that are busy, whatever
/// else holds, and calibrated ones that are tuned to another frequency. A
/// normal sensor does not heed calibration.
pub proof fn only_idle_tuned_sensors_listen(
    sensor_pos: BlockPos,
    calibrated: bool,
    source_pos: Vector3,
    frequency: u8,
    phase: SculkSensorPhase,
    calibration: u8,
    entity: Option<EntityKind>,
)
    requires
        !distance_to_center(source_pos, sensor_pos).above(range_of(calibrated)),
    ensures
        response(
            sensor_pos,
            calibrated,
            source_pos,
            frequency,
            phase,
            calibration,
            entity,
        ) is Ignored <==> {
            ||| phase != SculkSensorPhase::Inactive
            ||| calibrated && calibration != 0 && calibration != frequency
        },
{
}

/// A sensor in range, with its block entity, is offered the vibration with a
/// delay of at least one tick and at most its range; the wave that is shown
/// takes as long as the vibration.
pub proof fn wave_arrives_with_the_vibration(
    sensor_pos: BlockPos,
    calibrated: bool,
    source_pos: Vector3,
    frequency: u8,
    phase: SculkSensorPhase,
    calibration: u8,
    entity: Option<EntityKind>,
    distance: Binary64,
)
    requires
        response(sensor_pos, calibrated, source_pos, frequency, phase, calibration, entity) == (
        SensorResponse::Queue { distance }),
    ensures
        1 <= ticks_to_travel(distance) <= if calibrated {
            16
        } else {
            8int
        },
        wire_ticks(
            ticks_to_travel(distance_to_center(source_pos, sensor_pos)) as u32,
        ) == ticks_to_travel(distance),
{
    arrives_within_range_ticks(distance, calibrated);
}

/// The answer of amethyst is heard as far as any other event, keeps the
/// frequency, and is not swallowed by wool.
pub proof fn resonance_is_heard(frequency: u8, block: Block)
    requires
        1 <= frequency <= 15,
    ensures
        resonance_of(frequency) is Some,
        heard(resonance_of(frequency)->0, VibrationSource::nobody(), block),
        frequency_of(resonance_of(frequency)->0) == frequency,
{
}

/// What is seen of a vibration that arrives at an idle sensor: a signal as strong
/// as the distance leaves it, and at a comparator, if the sensor has its block
/// entity, the frequency of the event.
pub proof fn arrival_shows_strength_and_frequency(
    state: SensorState,
    entity: Option<EntityKind>,
    frequency: u8,
    distance: Binary64,
)
    requires
        state.phase() == Some(SculkSensorPhase::Inactive),
        frequency <= 15,
    ensures
        ({
            let power = strength(distance, range_of(state is Calibrated));
            let effects = record_effects(entity, frequency) + trigger_effects(
                state,
                entity,
                power as u8,
                frequency,
            );
            &&& 1 <= power <= 15
            &&& emitted(state_after(state, effects)) == power
            &&& scheduled_after(effects) == Some(state.active_ticks())
            &&& entity == Some(EntityKind::Plain) || entity == Some(EntityKind::Calibrated)
                ==> comparator_output(recorded_after(effects)) == frequency
        }),
{
    let power = strength(distance, range_of(state is Calibrated));
    let record = record_effects(entity, frequency);
    let rest = activation_effects(state, power as u8);
    let triggered = trigger_effects(state, entity, power as u8, frequency);
    lemma_after_quiet(state, record, triggered);
    trigger_activates_only_inactive(state, entity, power as u8, frequency);
    assert(record + triggered =~= (record + record) + rest);
    lemma_recorded_before(record + record, rest);
    if record.len() > 0 {
        assert((record + record).last() == SensorEffect::RecordFrequency(frequency as i32));
    }
}

/// What becomes of a vibration of any frequency at a sensor. One that is in range,
/// rests, and has no other frequency at its input if it is calibrated, takes it: its
/// own block entity is offered the vibration, with the distance to its center; without
/// an entity it is triggered, as strongly as that distance leaves it; only an entity
/// that is not its own refuses. Every other sensor ignores it.
pub proof fn idle_sensors_in_range_take_every_frequency(
    sensor_pos: BlockPos,
    calibrated: bool,
    source_pos: Vector3,
    frequency: u8,
    phase: SculkSensorPhase,
    calibration: u8,
    entity: Option<EntityKind>,
)
    ensures
        ({
            let r = response(
                sensor_pos,
                calibrated,
                source_pos,
                frequency,
                phase,
                calibration,
                entity,
            );
            let distance = distance_to_center(source_pos, sensor_pos);
            let range = range_of(calibrated);
            let takes = !distance.above(range) && phase is Inactive && (calibrated ==> calibration
                == 0 || calibration == frequency);
            &&& !takes ==> r is Ignored
            &&& takes ==> match entity {
                Some(EntityKind::Plain) => if calibrated {
                    r is Refused
                } else {
                    r == (SensorResponse::Queue { distance })
                },
                Some(EntityKind::Calibrated) => if calibrated {
                    r == (SensorResponse::Queue { distance })
                } else {
                    r is Refused
                },
                Some(EntityKind::Other) => r is Refused,
                None => r matches SensorResponse::Trigger { power } && power == strength(
                    distance,
                    range,
                ),
            }
        }),
{
    strength_is_a_signal(distance_to_center(source_pos, sensor_pos), range_of(calibrated));
}

/// The frequency of a vibration makes a difference only to a calibrated sensor with a
/// signal at its input.
pub proof fn only_calibration_heeds_frequency(
    sensor_pos: BlockPos,
    calibrated: bool,
    source_pos: Vector3,
    one: u8,
    other: u8,
    phase: SculkSensorPhase,
    calibration: u8,
    entity: Option<EntityKind>,
)
    requires
        !calibrated || calibration == 0,
    ensures
        response(sensor_pos, calibrated, source_pos, one, phase, calibration, entity) == response(
            sensor_pos,
            calibrated,
            source_pos,
            other,
            phase,
            calibration,
            entity,
        ),
{
}

/// A calibrated sensor with a signal at its input behaves to that frequency as it does
/// to all without a signal, and to no other.
pub proof fn calibration_selects_one_frequency(
    sensor_pos: BlockPos,
    source_pos: Vector3,
    frequency: u8,
    phase: SculkSensorPhase,
    calibration: u8,
    entity: Option<EntityKind>,
)
    requires
        calibration > 0,
    ensures
        ({
            let r = response(sensor_pos, true, source_pos, frequency, phase, calibration, entity);
            &&& frequency == calibration ==> r == response(
                sensor_pos,
                true,
                source_pos,
                frequency,
                phase,
                0,
                entity,
            )
            &&& frequency != calibration ==> r is Ignored
        }),
{
}

/// A vibration was taken where it was queued, or triggered the sensor at once.
pub proof fn taken_vibrations_are_accepted(response: SensorResponse, queued: bool)
    ensures
        response is Queue ==> accepted(response, queued) == queued,
        response is Trigger ==> accepted(response, queued),
        response is Ignored ==> !accepted(response, queued),
        response is Refused ==> !accepted(response, queued),
{
}

} // verus!
