//! The particle that shows a vibration on its way, and its wire format.
use vstd::arithmetic::div_mod::*;
use vstd::prelude::*;

use crate::binary64::Binary64;
use crate::position::{BlockPos, Vector3};

verus! {

/// A particle to be spawned.
#[derive(Debug)]
pub struct VibrationParticle {
    /// Where the particle starts: the exact place of the event.
    pub origin: Vector3,
    pub offset: Vector3,
    pub max_speed: Binary64,
    pub count: i32,
    pub data: Vec<u8>,
    /// Shown to players far away.
    pub long_distance: bool,
    /// Shown to players who turned particles off.
    pub always_visible: bool,
}

/// A number in the variable-length format: seven bits to a byte, the lowest
/// first, and the high bit set in all bytes but the last.
pub open spec fn var_int(value: nat) -> Seq<u8>
    decreases value,
{
    if value < 128 {
        seq![value as u8]
    } else {
        seq![(128 + value % 128) as u8] + var_int(value / 128)
    }
}

/// A block position in 64 bits: 26 for `x`, 26 for `z`, 12 for `y`, of each
/// coordinate the lowest ones.
pub open spec fn packed(p: BlockPos) -> int {
    (p.x as int % 0x400_0000) * 0x40_0000_0000 + (p.z as int % 0x400_0000) * 0x1000 + p.y as int
        % 0x1000
}

/// A 64-bit number, its highest byte first.
pub open spec fn big_endian(v: int) -> Seq<u8> {
    seq![
        (v / 0x100_0000_0000_0000 % 256) as u8,
        (v / 0x1_0000_0000_0000 % 256) as u8,
        (v / 0x100_0000_0000 % 256) as u8,
        (v / 0x1_0000_0000 % 256) as u8,
        (v / 0x100_0000 % 256) as u8,
        (v / 0x1_0000 % 256) as u8,
        (v / 0x100 % 256) as u8,
        (v % 256) as u8,
    ]
}

/// The data of a vibration particle that flies to a block: the kind of its
/// destination (0 for a block), the destination, and the ticks until it
/// arrives, of which none are negative.
pub open spec fn particle_data(destination: BlockPos, arrival_ticks: int) -> Seq<u8> {
    var_int(0) + big_endian(packed(destination)) + var_int(
        if arrival_ticks < 0 {
            0
        } else {
            arrival_ticks as nat
        },
    )
}

/// Appends a number in the variable-length format.
fn write_var_int(buf: &mut Vec<u8>, value: u32)
    ensures
        final(buf)@ == old(buf)@ + var_int(value as nat),
{
    let mut rest: u32 = value;
    let ghost start = buf@;
    while rest >= 128
        invariant
            start + var_int(value as nat) == buf@ + var_int(rest as nat),
        decreases rest,
    {
        buf.push((128 + rest % 128) as u8);
        rest = rest / 128;
    }
    buf.push(rest as u8);
}

/// The lowest bits of a coordinate.
fn low_bits(v: i32, modulus: u64) -> (r: u64)
    requires
        modulus == 0x400_0000 || modulus == 0x1000,
    ensures
        r == v as int % modulus as int,
{
    let up: u64 = (v as i64 + 0x1_0000_0000) as u64;
    up % modulus
}

/// Appends a block position.
fn write_block_pos(buf: &mut Vec<u8>, p: &BlockPos)
    ensures
        final(buf)@ == old(buf)@ + big_endian(packed(*p)),
{
    let v: u64 = low_bits(p.x, 0x400_0000) * 0x40_0000_0000 + low_bits(p.z, 0x400_0000) * 0x1000
        + low_bits(p.y, 0x1000);
    buf.push((v / 0x100_0000_0000_0000 % 256) as u8);
    buf.push((v / 0x1_0000_0000_0000 % 256) as u8);
    buf.push((v / 0x100_0000_0000 % 256) as u8);
    buf.push((v / 0x1_0000_0000 % 256) as u8);
    buf.push((v / 0x100_0000 % 256) as u8);
    buf.push((v / 0x1_0000 % 256) as u8);
    buf.push((v / 0x100 % 256) as u8);
    buf.push((v % 256) as u8);
}

/// Encode protocol data for `minecraft:vibration` (block destination).
///
/// - VarInt position source type (`0` = block)
/// - Position destination (packed `i64`)
/// - VarInt arrival ticks
#[must_use]
pub fn encode_vibration_particle_data(destination: BlockPos, arrival_ticks: i32) -> (r: Vec<u8>)
    ensures
        r@ == particle_data(destination, arrival_ticks as int),
{
    let mut buf: Vec<u8> = Vec::with_capacity(16);
    write_var_int(&mut buf, 0);
    write_block_pos(&mut buf, &destination);
    write_var_int(&mut buf, if arrival_ticks < 0 { 0 } else { arrival_ticks as u32 });
    buf
}

/// The ticks of an arrival, as the wire format counts them.
pub open spec fn wire_ticks(ticks: u32) -> int {
    if ticks > i32::MAX {
        ticks - 0x1_0000_0000
    } else {
        ticks as int
    }
}

/// The cyan vibration wave particle from `source` toward `destination`.
pub fn spawn_vibration_particle(source: Vector3, destination: BlockPos, ticks: u32) -> (r:
    VibrationParticle)
    ensures
        r.origin == source,
        r.offset == (Vector3 {
            x: Binary64::of_integer(0),
            y: Binary64::of_integer(0),
            z: Binary64::of_integer(0),
        }),
        r.max_speed == Binary64::of_integer(0),
        r.count == 1,
        r.data@ == particle_data(destination, wire_ticks(ticks)),
        r.long_distance,
        r.always_visible,
{
    let arrival: i32 = if ticks > 0x7fff_ffff {
        (ticks as i64 - 0x1_0000_0000) as i32
    } else {
        ticks as i32
    };
    let zero = Binary64::from_integer(0);
    VibrationParticle {
        origin: source,
        offset: Vector3 { x: zero, y: zero, z: zero },
        max_speed: zero,
        count: 1,
        data: encode_vibration_particle_data(destination, arrival),
        long_distance: true,
        always_visible: true,
    }
}

/// The number at the start of a sequence in the variable-length format, and
/// how many bytes it takes.
pub open spec fn read_var_int(s: Seq<u8>) -> Option<(nat, nat)>
    decreases s.len(),
{
    if s.len() == 0 {
        None
    } else if s[0] < 128 {
        Some((s[0] as nat, 1))
    } else {
        match read_var_int(s.drop_first()) {
            Some((rest, len)) => Some(((s[0] - 128 + 128 * rest) as nat, len + 1)),
            None => None,
        }
    }
}

/// Eight bytes as a number, the highest first.
pub open spec fn read_big_endian(s: Seq<u8>) -> int {
    s[0] * 0x100_0000_0000_0000 + s[1] * 0x1_0000_0000_0000 + s[2] * 0x100_0000_0000 + s[3]
        * 0x1_0000_0000 + s[4] * 0x100_0000 + s[5] * 0x1_0000 + s[6] * 0x100 + s[7]
}

/// A coordinate of `2 * half` values, with its sign.
pub open spec fn signed_bits(v: int, half: int) -> int {
    if v < half {
        v
    } else {
        v - 2 * half
    }
}

/// The coordinates in a packed position.
pub open spec fn unpacked(v: int) -> (int, int, int) {
    (
        signed_bits(v / 0x40_0000_0000, 0x200_0000),
        signed_bits(v % 0x1000, 0x800),
        signed_bits(v / 0x1000 % 0x400_0000, 0x200_0000),
    )
}

/// A number in the variable-length format is read back, whatever follows it.
pub proof fn var_int_is_read_back(value: nat, rest: Seq<u8>)
    ensures
        read_var_int(var_int(value) + rest) == Some((value, var_int(value).len())),
    decreases value,
{
    let s = var_int(value) + rest;
    if value >= 128 {
        var_int_is_read_back(value / 128, rest);
        assert(s.drop_first() =~= var_int(value / 128) + rest);
        assert(s[0] == 128 + value % 128);
    }
}

/// A number of 64 bits is read back from its bytes.
proof fn lemma_big_endian_is_read_back(v: int)
    requires
        0 <= v < 0x1_0000_0000_0000_0000,
    ensures
        read_big_endian(big_endian(v)) == v,
{
    let q1 = v / 0x100;
    let q2 = v / 0x1_0000;
    let q3 = v / 0x100_0000;
    let q4 = v / 0x1_0000_0000;
    let q5 = v / 0x100_0000_0000;
    let q6 = v / 0x1_0000_0000_0000;
    let q7 = v / 0x100_0000_0000_0000;
    lemma_div_denominator(v, 0x100, 0x100);
    lemma_div_denominator(v, 0x1_0000, 0x100);
    lemma_div_denominator(v, 0x100_0000, 0x100);
    lemma_div_denominator(v, 0x1_0000_0000, 0x100);
    lemma_div_denominator(v, 0x100_0000_0000, 0x100);
    lemma_div_denominator(v, 0x1_0000_0000_0000, 0x100);
    let s = big_endian(v);
    assert(s[0] == q7 % 256 && s[1] == q6 % 256 && s[2] == q5 % 256 && s[3] == q4 % 256);
    assert(s[4] == q3 % 256 && s[5] == q2 % 256 && s[6] == q1 % 256 && s[7] == v % 256);
    lemma_horner(v, q1, q2, q3);
    lemma_horner(q3, q4, q5, q6);
    assert(q7 == q6 / 256);
    assert(0 <= q7 < 256);
    assert(q7 % 256 == q7);
    assert(q6 == 256 * q7 + q6 % 256);
}

/// Three bytes split off a number.
proof fn lemma_horner(a: int, b: int, c: int, d: int)
    requires
        b == a / 256,
        c == b / 256,
        d == c / 256,
    ensures
        a == 0x100_0000 * d + 0x1_0000 * (c % 256) + 0x100 * (b % 256) + a % 256,
{
}

/// A packed position has 64 bits, and is read back within the limits.
proof fn lemma_unpacked(p: BlockPos)
    requires
        -0x200_0000 <= p.x < 0x200_0000,
        -0x800 <= p.y < 0x800,
        -0x200_0000 <= p.z < 0x200_0000,
    ensures
        0 <= packed(p) < 0x1_0000_0000_0000_0000,
        p.is_at(unpacked(packed(p))),
{
    let x = p.x as int % 0x400_0000;
    let y = p.y as int % 0x1000;
    let z = p.z as int % 0x400_0000;
    let v = packed(p);
    let low = z * 0x1000 + y;
    assert(v == x * 0x40_0000_0000 + low);
    assert(0 <= low < 0x40_0000_0000);
    lemma_fundamental_div_mod_converse(v, 0x40_0000_0000, x, low);
    let high = x * 0x400_0000 + z;
    assert(v == high * 0x1000 + y);
    lemma_fundamental_div_mod_converse(v, 0x1000, high, y);
    lemma_fundamental_div_mod_converse(high, 0x400_0000, x, z);
}

/// A client reads from the data of a particle what went in: the kind of its
/// destination, the destination, if its coordinates lie within the limits of
/// the format, and the ticks until it arrives.
pub proof fn particle_data_is_read_back(destination: BlockPos, arrival_ticks: int)
    requires
        -0x200_0000 <= destination.x < 0x200_0000,
        -0x800 <= destination.y < 0x800,
        -0x200_0000 <= destination.z < 0x200_0000,
        arrival_ticks >= 0,
    ensures
        ({
            let data = particle_data(destination, arrival_ticks);
            &&& read_var_int(data) == Some((0nat, 1nat))
            &&& destination.is_at(unpacked(read_big_endian(data.subrange(1, 9))))
            &&& read_var_int(data.skip(9)) == Some(
                (arrival_ticks as nat, (data.len() - 9) as nat),
            )
        }),
{
    let data = particle_data(destination, arrival_ticks);
    let v = packed(destination);
    let ticks = var_int(arrival_ticks as nat);
    assert(data.subrange(1, 9) =~= big_endian(v));
    lemma_unpacked(destination);
    lemma_big_endian_is_read_back(v);
    assert(data.skip(9) =~= ticks + Seq::<u8>::empty());
    var_int_is_read_back(arrival_ticks as nat, Seq::empty());
}

/// The bytes of a number in the variable-length format: below 128 one, the number
/// itself; else the lowest seven bits, marked, and then those of the rest.
pub proof fn numbers_are_written_seven_bits_at_a_time(value: nat)
    ensures
        value < 128 ==> var_int(value).len() == 1 && var_int(value)[0] == value,
        value >= 128 ==> {
            &&& var_int(value)[0] >= 128
            &&& (var_int(value)[0] - 128) == value % 128
            &&& var_int(value).drop_first() == var_int(value / 128)
        },
{
    if value >= 128 {
        assert(var_int(value).drop_first() =~= var_int(value / 128));
    }
}

/// The bytes of a number of 64 bits, weighted by their places, are the number.
pub proof fn numbers_are_written_highest_byte_first(v: int)
    requires
        0 <= v < 0x1_0000_0000_0000_0000,
    ensures
        big_endian(v).len() == 8,
        ({
            let s = big_endian(v);
            s[7] + 0x100 * s[6] + 0x1_0000 * s[5] + 0x100_0000 * s[4] + 0x1_0000_0000 * s[3]
                + 0x100_0000_0000 * s[2] + 0x1_0000_0000_0000 * s[1] + 0x100_0000_0000_0000 * s[0]
                == v
        }),
{
    lemma_big_endian_is_read_back(v);
}

/// How a position is packed, wherever it lies: the lowest twelve bits are those of `y`,
/// the next twenty-six those of `z`, the highest those of `x`.
pub proof fn positions_are_packed_by_their_low_bits(p: BlockPos)
    ensures
        0 <= packed(p) < 0x1_0000_0000_0000_0000,
        (packed(p) % 0x1000 - p.y) % 0x1000 == 0,
        (packed(p) / 0x1000 % 0x400_0000 - p.z) % 0x400_0000 == 0,
        (packed(p) / 0x40_0000_0000 - p.x) % 0x400_0000 == 0,
{
    let x = p.x as int % 0x400_0000;
    let y = p.y as int % 0x1000;
    let z = p.z as int % 0x400_0000;
    let v = packed(p);
    let low = z * 0x1000 + y;
    lemma_fundamental_div_mod_converse(v, 0x40_0000_0000, x, low);
    let high = x * 0x400_0000 + z;
    lemma_fundamental_div_mod_converse(v, 0x1000, high, y);
    lemma_fundamental_div_mod_converse(high, 0x400_0000, x, z);
}

/// What the data of a particle holds: the byte 0 for a block, the eight bytes of its
/// packed position, and the ticks, of which none are counted where they are negative.
pub proof fn what_particle_data_holds(destination: BlockPos, arrival_ticks: int)
    ensures
        ({
            let data = particle_data(destination, arrival_ticks);
            &&& data.len() > 9
            &&& data[0] == 0
            &&& data.subrange(1, 9) == big_endian(packed(destination))
            &&& arrival_ticks >= 0 ==> data.skip(9) == var_int(arrival_ticks as nat)
            &&& arrival_ticks < 0 ==> data.skip(9) == seq![0u8]
        }),
{
    let data = particle_data(destination, arrival_ticks);
    assert(var_int(0) =~= seq![0u8]);
    assert(data.subrange(1, 9) =~= big_endian(packed(destination)));
    assert(data.skip(9) =~= var_int(
        if arrival_ticks < 0 {
            0
        } else {
            arrival_ticks as nat
        },
    ));
}

/// Ticks are counted with a sign of 32 bits: those that fit are kept, and the others
/// are negative.
pub proof fn ticks_that_fit_are_kept(ticks: u32)
    ensures
        ticks <= 0x7fff_ffff ==> wire_ticks(ticks) == ticks,
        ticks > 0x7fff_ffff ==> wire_ticks(ticks) < 0 && wire_ticks(ticks) + 0x1_0000_0000 == ticks,
{
}

} // verus!
