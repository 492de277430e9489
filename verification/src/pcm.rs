//! The PCM wire format: each frame carries one signed 16-bit sample per
//! channel, two channels, serialized little-endian, so a frame is four
//! bytes. Both channels carry the same tone here, so a frame is fully
//! described by one sample level.

use vstd::prelude::*;

verus! {

/// Bytes per frame: two channels of two bytes each.
pub const FRAME_BYTES: usize = 4;

/// The unsigned 16-bit pattern that encodes a signed sample level
/// (two's complement).
pub open spec fn sample_bits(v: int) -> int {
    if v >= 0 {
        v
    } else {
        v + 0x10000
    }
}

/// Low byte of the little-endian encoding of level `v`.
pub open spec fn lo_byte(v: int) -> int {
    sample_bits(v) % 256
}

/// High byte of the little-endian encoding of level `v`.
pub open spec fn hi_byte(v: int) -> int {
    sample_bits(v) / 256
}

/// Byte `j` (0..4) of the frame that carries level `v` on both channels:
/// low byte, high byte, low byte, high byte.
pub open spec fn frame_byte(v: int, j: int) -> int {
    if j == 1 || j == 3 {
        hi_byte(v)
    } else {
        lo_byte(v)
    }
}

/// Frame `k` of byte sequence `b` encodes level `v` on both channels.
pub open spec fn frame_at_level(b: Seq<u8>, k: int, v: int) -> bool {
    forall|j: int| 0 <= j < 4 ==> b[4 * k + j] as int == frame_byte(v, j)
}

/// The signed sample level encoded by a little-endian byte pair.
pub open spec fn decoded(lo: u8, hi: u8) -> int {
    let u = lo as int + 256 * (hi as int);
    if u < 0x8000 {
        u
    } else {
        u - 0x10000
    }
}

/// Split a sample into its little-endian byte pair.
pub fn encode_sample(s: i16) -> (r: (u8, u8))
    ensures
        r.0 as int == lo_byte(s as int),
        r.1 as int == hi_byte(s as int),
{
    let bits: u16 = if s >= 0 {
        s as u16
    } else {
        (s as i32 + 0x10000) as u16
    };
    ((bits % 256) as u8, (bits / 256) as u8)
}

/// Rebuild the signed sample from its little-endian byte pair.
pub fn decode_sample(lo: u8, hi: u8) -> (s: i16)
    ensures
        s as int == decoded(lo, hi),
{
    let u: u32 = lo as u32 + 256 * (hi as u32);
    if u < 0x8000 {
        u as i16
    } else {
        (u as i32 - 0x10000) as i16
    }
}

/// Decoding the two bytes produced for any sample level gives back exactly
/// that level: the wire format loses nothing.
pub proof fn lemma_sample_round_trip(v: int)
    requires
        -0x8000 <= v < 0x8000,
    ensures
        0 <= lo_byte(v) < 256,
        0 <= hi_byte(v) < 256,
        decoded(lo_byte(v) as u8, hi_byte(v) as u8) == v,
{
    let u = sample_bits(v);
    assert(0 <= u < 0x10000);
    assert(u == 256 * (u / 256) + u % 256) by {
        vstd::arithmetic::div_mod::lemma_fundamental_div_mod(u, 256);
    }
    assert(0 <= u % 256 < 256) by {
        vstd::arithmetic::div_mod::lemma_mod_division_less_than_divisor(u, 256);
    }
}

/// Write the frame for sample `s` at byte offset `pos`, leaving every other
/// byte of the buffer unchanged.
pub fn write_frame(buf: &mut Vec<u8>, pos: usize, s: i16)
    requires
        pos + 4 <= old(buf).len(),
    ensures
        final(buf).len() == old(buf).len(),
        forall|j: int| 0 <= j < 4 ==> final(buf)@[pos + j] as int == frame_byte(s as int, j),
        forall|j: int|
            0 <= j < old(buf)@.len() && !(pos <= j < pos + 4) ==> final(buf)@[j] == old(buf)@[j],
{
    let (lo, hi) = encode_sample(s);
    buf.set(pos, lo);
    buf.set(pos + 1, hi);
    buf.set(pos + 2, lo);
    buf.set(pos + 3, hi);
}

} // verus!
