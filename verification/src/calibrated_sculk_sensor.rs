//! The block entity of a calibrated sculk sensor.
use vstd::prelude::*;

use crate::binary64::binary32::{short_numbers_survive, zero_is_short, Binary32};
use crate::binary64::Binary64;
use crate::distance::{ticks_to_travel, travel_ticks};
use crate::nbt::{NbtCompound, NbtTag};
use crate::position::{BlockPos, Vector3};

verus! {

/// A vibration on its way to a sensor.
#[derive(Clone, Copy, Debug, PartialEq, Eq, Structural)]
pub struct PendingVibration {
    pub source: Vector3,
    pub frequency: u8,
    pub distance: Binary64,
    pub delay_ticks: u32,
    pub from_player: bool,
}

/// The state of a calibrated sculk sensor beside its block state.
#[derive(Debug)]
pub struct CalibratedSculkSensorBlockEntity {
    pub position: BlockPos,
    pub last_vibration_frequency: i32,
    pub pending: Option<PendingVibration>,
}

/// A double of a list, or 0 where the tag is of another type.
pub open spec fn double_or_zero(tag: NbtTag) -> Binary64 {
    match tag.as_double() {
        Some(v) => v,
        None => Binary64::of_integer(0),
    }
}

/// The frequency of a stored vibration: its own, else that of the last one,
/// else 1, brought between 1 and 15.
pub open spec fn stored_frequency(own: Option<i32>, last: Option<i32>) -> u8 {
    let f = match own {
        Some(v) => v,
        None => match last {
            Some(v) => v,
            None => 1,
        },
    };
    if f < 1 {
        1
    } else if f > 15 {
        15
    } else {
        f as u8
    }
}

/// The vibration that is stored under a sensor: none without a listener, a
/// positive delay, an event and three coordinates.
pub open spec fn stored_pending(nbt: NbtCompound) -> Option<PendingVibration> {
    match nbt.compound_at("listener"@) {
        None => None,
        Some(listener) => {
            let delay = match listener.int_at("event_delay"@) {
                Some(v) => v as int,
                None => 0,
            };
            match listener.compound_at("event"@) {
                Some(event) if delay > 0 => match event.list_at("pos"@) {
                    Some(pos) if pos.len() >= 3 => Some(
                        PendingVibration {
                            source: Vector3 {
                                x: double_or_zero(pos[0]),
                                y: double_or_zero(pos[1]),
                                z: double_or_zero(pos[2]),
                            },
                            frequency: stored_frequency(
                                event.int_at("frequency"@),
                                nbt.int_at("last_vibration_frequency"@),
                            ),
                            distance: match event.float_at("distance"@) {
                                Some(v) => v.widened(),
                                None => Binary64::of_integer(0),
                            },
                            delay_ticks: delay as u32,
                            from_player: false,
                        },
                    ),
                    _ => None,
                },
                _ => None,
            }
        },
    }
}

/// The delay as it is stored, in 32 bits with a sign.
pub open spec fn stored_delay(delay_ticks: u32) -> i32 {
    if delay_ticks > i32::MAX {
        (delay_ticks - 0x1_0000_0000) as i32
    } else {
        delay_ticks as i32
    }
}

/// The event of a pending vibration has been stored, and nothing beside it.
pub open spec fn stores_event(event: NbtCompound, pending: PendingVibration) -> bool {
    &&& event.float_at("distance"@) == Some(Binary32::narrowed(pending.distance))
    &&& event.int_at("frequency"@) == Some(pending.frequency as i32)
    &&& event.list_at("pos"@) == Some(
        seq![
            NbtTag::Double(pending.source.x),
            NbtTag::Double(pending.source.y),
            NbtTag::Double(pending.source.z),
        ],
    )
    &&& forall|name: Seq<char>|
        name != "distance"@ && name != "frequency"@ && name != "pos"@ ==> #[trigger] event.at(name)
            is None
}

/// A sensor has been stored: `after` holds it, and what `before` held under
/// other names. Without a pending vibration, no listener is written.
pub open spec fn stores_sensor(
    sensor: CalibratedSculkSensorBlockEntity,
    before: NbtCompound,
    after: NbtCompound,
) -> bool {
    &&& after.int_at("last_vibration_frequency"@) == Some(sensor.last_vibration_frequency)
    &&& match sensor.pending {
        Some(pending) => after.compound_at("listener"@) matches Some(listener) && {
            &&& listener.int_at("event_delay"@) == Some(stored_delay(pending.delay_ticks))
            &&& listener.compound_at("event"@) matches Some(event) && stores_event(event, pending)
            &&& forall|name: Seq<char>|
                name != "event_delay"@ && name != "event"@ ==> #[trigger] listener.at(name) is None
        },
        None => after.at("listener"@) == before.at("listener"@),
    }
    &&& forall|name: Seq<char>|
        name != "last_vibration_frequency"@ && name != "listener"@ ==> #[trigger] after.at(name)
            == before.at(name)
}

/// The names under which a sensor is stored are different ones.
proof fn lemma_names_differ()
    ensures
        "last_vibration_frequency"@ != "listener"@,
        "event_delay"@ != "event"@,
        "distance"@ != "frequency"@,
        "distance"@ != "pos"@,
        "frequency"@ != "pos"@,
{
    reveal_strlit("last_vibration_frequency");
    reveal_strlit("listener");
    reveal_strlit("event_delay");
    reveal_strlit("event");
    reveal_strlit("distance");
    reveal_strlit("frequency");
    reveal_strlit("pos");
    assert("last_vibration_frequency"@.len() == 24 && "listener"@.len() == 8);
    assert("event_delay"@.len() == 11 && "event"@.len() == 5);
    assert("distance"@.len() == 8 && "frequency"@.len() == 9 && "pos"@.len() == 3);
}

fn read_double(tag: &NbtTag) -> (r: Binary64)
    ensures
        r == double_or_zero(*tag),
{
    match tag.extract_double() {
        Some(v) => v,
        None => Binary64::from_integer(0),
    }
}

/// The pending vibration of a stored sensor.
pub fn read_pending(nbt: &NbtCompound) -> (r: Option<PendingVibration>)
    ensures
        r == stored_pending(*nbt),
{
    let listener = match nbt.get_compound("listener") {
        Some(c) => c,
        None => {
            return None;
        },
    };
    let delay: i32 = match listener.get_int("event_delay") {
        Some(v) => v,
        None => 0,
    };
    if delay <= 0 {
        return None;
    }
    let event = match listener.get_compound("event") {
        Some(c) => c,
        None => {
            return None;
        },
    };
    let pos = match event.get_list("pos") {
        Some(l) => l,
        None => {
            return None;
        },
    };
    if pos.len() < 3 {
        return None;
    }
    let source = Vector3 {
        x: read_double(&pos[0]),
        y: read_double(&pos[1]),
        z: read_double(&pos[2]),
    };
    let distance = match event.get_float("distance") {
        Some(v) => v.widen(),
        None => Binary64::from_integer(0),
    };
    let f: i32 = match event.get_int("frequency") {
        Some(v) => v,
        None => match nbt.get_int("last_vibration_frequency") {
            Some(v) => v,
            None => 1,
        },
    };
    let frequency: u8 = if f < 1 {
        1
    } else if f > 15 {
        15
    } else {
        f as u8
    };
    Some(
        PendingVibration {
            source,
            frequency,
            distance,
            delay_ticks: delay as u32,
            from_player: false,
        },
    )
}

/// A pending vibration after one more tick: the one that waits on, and the one
/// that arrives.
pub open spec fn after_tick(pending: Option<PendingVibration>) -> (
    Option<PendingVibration>,
    Option<PendingVibration>,
) {
    match pending {
        None => (None, None),
        Some(v) => {
            let left: u32 = if v.delay_ticks > 0 {
                (v.delay_ticks - 1) as u32
            } else {
                0
            };
            let ticked = PendingVibration { delay_ticks: left, ..v };
            if left == 0 {
                (None, Some(ticked))
            } else {
                (Some(ticked), None)
            }
        },
    }
}

impl CalibratedSculkSensorBlockEntity {
    pub const ID: &'static str = "minecraft:calibrated_sculk_sensor";

    /// A waiting vibration has still some way to go.
    pub open spec fn wf(self) -> bool {
        self.pending matches Some(v) ==> v.delay_ticks >= 1
    }

    /// The entity of a new sensor.
    #[must_use]
    pub fn new(position: BlockPos) -> (r: CalibratedSculkSensorBlockEntity)
        ensures
            r.position == position,
            r.last_vibration_frequency == 0,
            r.pending is None,
            r.wf(),
    {
        CalibratedSculkSensorBlockEntity { position, last_vibration_frequency: 0, pending: None }
    }

    pub fn resource_location(&self) -> (r: &'static str)
        ensures
            r@ == "minecraft:calibrated_sculk_sensor"@,
    {
        CalibratedSculkSensorBlockEntity::ID
    }

    pub fn get_position(&self) -> (r: BlockPos)
        ensures
            r == self.position,
    {
        self.position
    }

    /// The entity that is stored in a compound.
    pub fn from_nbt(nbt: &NbtCompound, position: BlockPos) -> (r: CalibratedSculkSensorBlockEntity)
        ensures
            r.position == position,
            r.last_vibration_frequency == match nbt.int_at("last_vibration_frequency"@) {
                Some(v) => v,
                None => 0,
            },
            r.pending == stored_pending(*nbt),
            r.wf(),
    {
        let last_vibration_frequency: i32 = match nbt.get_int("last_vibration_frequency") {
            Some(v) => v,
            None => 0,
        };
        CalibratedSculkSensorBlockEntity {
            position,
            last_vibration_frequency,
            pending: read_pending(nbt),
        }
    }

    /// Stores the entity in a compound.
    pub fn write_nbt(&self, nbt: &mut NbtCompound)
        ensures
            stores_sensor(*self, *old(nbt), *final(nbt)),
    {
        proof {
            lemma_names_differ();
        }
        nbt.put("last_vibration_frequency", NbtTag::Int(self.last_vibration_frequency));
        if let Some(pending) = self.pending {
            let delay: i32 = if pending.delay_ticks > 0x7fff_ffff {
                (pending.delay_ticks as i64 - 0x1_0000_0000) as i32
            } else {
                pending.delay_ticks as i32
            };
            let mut listener = NbtCompound::new();
            listener.put("event_delay", NbtTag::Int(delay));
            let mut event = NbtCompound::new();
            event.put("distance", NbtTag::Float(Binary32::narrow(pending.distance)));
            event.put("frequency", NbtTag::Int(pending.frequency as i32));
            let pos: Vec<NbtTag> = vec![
                NbtTag::Double(pending.source.x),
                NbtTag::Double(pending.source.y),
                NbtTag::Double(pending.source.z),
            ];
            event.put("pos", NbtTag::List(pos));
            listener.put("event", NbtTag::Compound(event));
            nbt.put("listener", NbtTag::Compound(listener));
        }
    }

    /// One tick: the pending vibration comes nearer. Returns it when it
    /// arrives; the sensor is then to be activated with it.
    pub fn tick(&mut self) -> (r: Option<PendingVibration>)
        ensures
            (final(self).pending, r) == after_tick(old(self).pending),
            final(self).position == old(self).position,
            final(self).last_vibration_frequency == old(self).last_vibration_frequency,
            final(self).wf(),
    {
        match self.pending {
            None => None,
            Some(v) => {
                let left: u32 = if v.delay_ticks > 0 { v.delay_ticks - 1 } else { 0 };
                let ticked = PendingVibration {
                    source: v.source,
                    frequency: v.frequency,
                    distance: v.distance,
                    delay_ticks: left,
                    from_player: v.from_player,
                };
                if left == 0 {
                    self.pending = None;
                    Some(ticked)
                } else {
                    self.pending = Some(ticked);
                    None
                }
            },
        }
    }

    /// Takes a vibration, unless another one is pending.
    pub fn try_queue_vibration(
        &mut self,
        source: Vector3,
        frequency: u8,
        distance: Binary64,
        from_player: bool,
    ) -> (r: bool)
        ensures
            r == (old(self).pending is None),
            !r ==> *final(self) == *old(self),
            r ==> final(self).pending == Some(
                PendingVibration {
                    source,
                    frequency,
                    distance,
                    delay_ticks: ticks_to_travel(distance) as u32,
                    from_player,
                },
            ),
            final(self).position == old(self).position,
            final(self).last_vibration_frequency == old(self).last_vibration_frequency,
            old(self).wf() ==> final(self).wf(),
    {
        if self.pending.is_some() {
            return false;
        }
        let delay: u32 = travel_ticks(distance);
        self.pending = Some(
            PendingVibration { source, frequency, distance, delay_ticks: delay, from_player },
        );
        true
    }
}

/// What waits after `n` ticks.
pub open spec fn waiting_after(pending: Option<PendingVibration>, n: nat) -> Option<
    PendingVibration,
>
    decreases n,
{
    if n == 0 {
        pending
    } else {
        after_tick(waiting_after(pending, (n - 1) as nat)).0
    }
}

/// A vibration waits through all ticks of its delay but the last, and arrives
/// with that one, unchanged but for the delay.
pub proof fn vibration_arrives_after_its_delay(v: PendingVibration, n: nat)
    requires
        n < v.delay_ticks,
    ensures
        waiting_after(Some(v), n) == Some(
            PendingVibration { delay_ticks: (v.delay_ticks - n) as u32, ..v },
        ),
        after_tick(waiting_after(Some(v), n)) == if n + 1 == v.delay_ticks {
            (None, Some(PendingVibration { delay_ticks: 0, ..v }))
        } else {
            (
                Some(PendingVibration { delay_ticks: (v.delay_ticks - n - 1) as u32, ..v }),
                None::<PendingVibration>,
            )
        },
    decreases n,
{
    if n > 0 {
        vibration_arrives_after_its_delay(v, (n - 1) as nat);
    }
}

/// What is read back of a sensor that was stored: the last frequency, and the
/// pending vibration, whose distance was rounded to the shorter format, whose
/// frequency is brought between 1 and 15, and of which it is forgotten whether
/// it came from a player. A delay of `2^31` ticks or more is not read back. A
/// sensor that waits for nothing must not be stored over one that waits: the
/// old vibration would come back.
pub proof fn stored_sensor_is_read_back(
    sensor: CalibratedSculkSensorBlockEntity,
    before: NbtCompound,
    after: NbtCompound,
)
    requires
        stores_sensor(sensor, before, after),
        sensor.pending is None ==> stored_pending(before) is None,
    ensures
        after.int_at("last_vibration_frequency"@) == Some(sensor.last_vibration_frequency),
        stored_pending(after) == match sensor.pending {
            Some(v) if 1 <= v.delay_ticks <= i32::MAX => Some(
                PendingVibration {
                    frequency: stored_frequency(Some(v.frequency as i32), None),
                    distance: Binary32::narrowed(v.distance).widened(),
                    from_player: false,
                    ..v
                },
            ),
            _ => None,
        },
{
}

/// A vibration that was stored and read back once is from then on read back as
/// it is.
pub proof fn second_storing_changes_nothing(
    sensor: CalibratedSculkSensorBlockEntity,
    before: NbtCompound,
    after: NbtCompound,
    stored: NbtCompound,
)
    requires
        sensor.pending is Some,
        sensor.pending == stored_pending(stored),
        stores_sensor(sensor, before, after),
    ensures
        stored_pending(after) == sensor.pending,
{
    stored_sensor_is_read_back(sensor, before, after);
    let event = stored.compound_at("listener"@)->0.compound_at("event"@)->0;
    match event.float_at("distance"@) {
        Some(v) => short_numbers_survive(v),
        None => {
            zero_is_short();
            short_numbers_survive(Binary32 { bits: 0 });
        },
    }
}

/// What a stored vibration keeps: its place, its delay, and its frequency, if that is
/// one of the fifteen; one below them is read as the lowest, one above as the highest.
pub proof fn stored_vibrations_keep_frequency_place_and_delay(
    sensor: CalibratedSculkSensorBlockEntity,
    before: NbtCompound,
    after: NbtCompound,
    v: PendingVibration,
)
    requires
        stores_sensor(sensor, before, after),
        sensor.pending == Some(v),
        1 <= v.delay_ticks <= i32::MAX,
    ensures
        stored_pending(after) matches Some(w) && {
            &&& 1 <= v.frequency <= 15 ==> w.frequency == v.frequency
            &&& v.frequency < 1 ==> w.frequency == 1
            &&& v.frequency > 15 ==> w.frequency == 15
            &&& w.source == v.source
            &&& w.delay_ticks == v.delay_ticks
            &&& !w.from_player
        },
{
    stored_sensor_is_read_back(sensor, before, after);
}

/// Two sensors that are stored alike are read alike only if they waited for the same:
/// of two vibrations with frequencies from 1 to 15, neither is read as the other.
pub proof fn stored_frequencies_are_told_apart(
    one: CalibratedSculkSensorBlockEntity,
    other: CalibratedSculkSensorBlockEntity,
    before: NbtCompound,
    a: NbtCompound,
    b: NbtCompound,
)
    requires
        stores_sensor(one, before, a),
        stores_sensor(other, before, b),
        one.pending matches Some(v) && 1 <= v.delay_ticks <= i32::MAX && 1 <= v.frequency <= 15,
        other.pending matches Some(v) && 1 <= v.delay_ticks <= i32::MAX && 1 <= v.frequency <= 15,
        stored_pending(a) == stored_pending(b),
    ensures
        one.pending->0.frequency == other.pending->0.frequency,
        one.pending->0.source == other.pending->0.source,
        one.pending->0.delay_ticks == other.pending->0.delay_ticks,
{
    stored_vibrations_keep_frequency_place_and_delay(one, before, a, one.pending->0);
    stored_vibrations_keep_frequency_place_and_delay(other, before, b, other.pending->0);
}

/// What is written of a vibration that waits: the delay, the place, the frequency as it
/// is, and the distance in the shorter format.
pub proof fn what_is_written_of_a_vibration(
    sensor: CalibratedSculkSensorBlockEntity,
    before: NbtCompound,
    after: NbtCompound,
    v: PendingVibration,
)
    requires
        stores_sensor(sensor, before, after),
        sensor.pending == Some(v),
    ensures
        after.int_at("last_vibration_frequency"@) == Some(sensor.last_vibration_frequency),
        after.compound_at("listener"@) matches Some(listener) && {
            &&& listener.int_at("event_delay"@) matches Some(t) && {
                &&& v.delay_ticks <= i32::MAX ==> t == v.delay_ticks
                &&& v.delay_ticks > i32::MAX ==> t == v.delay_ticks - 0x1_0000_0000
            }
            &&& listener.compound_at("event"@) matches Some(event) && {
                &&& event.int_at("frequency"@) matches Some(f) && f == v.frequency
                &&& event.float_at("distance"@) == Some(Binary32::narrowed(v.distance))
                &&& event.list_at("pos"@) matches Some(pos) && pos.len() == 3 && pos[0]
                    == NbtTag::Double(v.source.x) && pos[1] == NbtTag::Double(v.source.y) && pos[2]
                    == NbtTag::Double(v.source.z)
            }
        },
{
}

/// When a vibration is read: exactly where there is a listener with a positive delay and
/// an event with at least three coordinates.
pub proof fn when_a_vibration_is_read(nbt: NbtCompound)
    ensures
        stored_pending(nbt) is Some <==> (nbt.compound_at("listener"@) matches Some(listener) && {
            &&& listener.int_at("event_delay"@) matches Some(t) && t > 0
            &&& listener.compound_at("event"@) matches Some(event) && event.list_at(
                "pos"@,
            ) matches Some(pos) && pos.len() >= 3
        }),
{
}

/// What is read of a vibration: the first three coordinates, where they are doubles, and
/// 0 where they are not; the delay; the frequency of the event, or else the last one of
/// the sensor, or else 1, brought between 1 and 15; the distance, or 0. It came from no
/// player.
pub proof fn what_is_read_of_a_vibration(
    nbt: NbtCompound,
    listener: NbtCompound,
    event: NbtCompound,
    pos: Seq<NbtTag>,
    f: int,
)
    requires
        nbt.compound_at("listener"@) == Some(listener),
        listener.int_at("event_delay"@) matches Some(t) && t > 0,
        listener.compound_at("event"@) == Some(event),
        event.list_at("pos"@) == Some(pos),
        pos.len() >= 3,
        match event.int_at("frequency"@) {
            Some(own) => f == own,
            None => match nbt.int_at("last_vibration_frequency"@) {
                Some(last) => f == last,
                None => f == 1,
            },
        },
    ensures
        stored_pending(nbt) matches Some(w) && {
            &&& w.delay_ticks == listener.int_at("event_delay"@)->0
            &&& 1 <= f <= 15 ==> w.frequency == f
            &&& f < 1 ==> w.frequency == 1
            &&& f > 15 ==> w.frequency == 15
            &&& pos[0] matches NbtTag::Double(x) ==> w.source.x == x
            &&& pos[1] matches NbtTag::Double(y) ==> w.source.y == y
            &&& pos[2] matches NbtTag::Double(z) ==> w.source.z == z
            &&& !(pos[0] is Double) ==> w.source.x == Binary64::of_integer(0)
            &&& !(pos[1] is Double) ==> w.source.y == Binary64::of_integer(0)
            &&& !(pos[2] is Double) ==> w.source.z == Binary64::of_integer(0)
            &&& event.float_at("distance"@) matches Some(d) ==> w.distance == d.widened()
            &&& event.float_at("distance"@) is None ==> w.distance == Binary64::of_integer(0)
            &&& !w.from_player
        },
{
}

/// A tick takes one from the delay of what waits, and changes nothing else of it. What
/// has no more delay arrives; what has goes on waiting; and where nothing waits nothing
/// arrives.
pub proof fn a_tick_brings_a_vibration_nearer(pending: Option<PendingVibration>)
    ensures
        ({
            let (waits, arrives) = after_tick(pending);
            &&& pending is None ==> waits is None && arrives is None
            &&& pending matches Some(v) ==> {
                &&& v.delay_ticks <= 1 ==> waits is None && (arrives matches Some(w) && {
                    &&& w.delay_ticks == 0
                    &&& w.source == v.source
                    &&& w.frequency == v.frequency
                    &&& w.distance == v.distance
                    &&& w.from_player == v.from_player
                })
                &&& v.delay_ticks > 1 ==> arrives is None && (waits matches Some(w) && {
                    &&& w.delay_ticks == v.delay_ticks - 1
                    &&& w.source == v.source
                    &&& w.frequency == v.frequency
                    &&& w.distance == v.distance
                    &&& w.from_player == v.from_player
                })
            }
        }),
{
}

} // verus!
