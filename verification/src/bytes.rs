//! Bounds-checked little-endian reads and little-endian byte layouts.
//!
//! A read that would run past the end of the buffer yields zero instead of
//! failing, so that truncated files degrade into empty frames.

use vstd::prelude::*;

verus! {

/// The unsigned 16-bit little-endian value at `off`, or 0 where the two bytes
/// do not lie inside `s`.
pub open spec fn u16_le_at(s: Seq<u8>, off: int) -> nat {
    if 0 <= off && off + 2 <= s.len() {
        s[off] as nat + 256 * (s[off + 1] as nat)
    } else {
        0
    }
}

/// The unsigned 32-bit little-endian value at `off`, or 0 where the four bytes
/// do not lie inside `s`.
pub open spec fn u32_le_at(s: Seq<u8>, off: int) -> nat {
    if 0 <= off && off + 4 <= s.len() {
        s[off] as nat + 256 * (s[off + 1] as nat) + 65536 * (s[off + 2] as nat) + 16777216 * (
        s[off + 3] as nat)
    } else {
        0
    }
}

/// Two's-complement reading of a value in `0..65536`.
pub open spec fn signed16(v: int) -> int {
    if v < 32768 {
        v
    } else {
        v - 65536
    }
}

/// Two's-complement reading of a value in `0..2^32`.
pub open spec fn signed32(v: int) -> int {
    if v < 2147483648 {
        v
    } else {
        v - 4294967296
    }
}

/// The value in `0..65536` whose two's-complement reading is `v`.
pub open spec fn unsigned16(v: int) -> int {
    if v < 0 {
        v + 65536
    } else {
        v
    }
}

/// The two bytes of `v`, low byte first.
pub open spec fn le16(v: int) -> Seq<u8> {
    seq![(v % 256) as u8, (v / 256 % 256) as u8]
}

/// The four bytes of `v`, low byte first.
pub open spec fn le32(v: int) -> Seq<u8> {
    seq![
        (v % 256) as u8,
        (v / 256 % 256) as u8,
        (v / 65536 % 256) as u8,
        (v / 16777216 % 256) as u8,
    ]
}

pub fn read_u16(data: &[u8], offset: usize) -> (r: u16)
    ensures
        r as nat == u16_le_at(data@, offset as int),
{
    if offset > data.len() || data.len() - offset < 2 {
        return 0;
    }
    let b0: u16 = data[offset] as u16;
    let b1: u16 = data[offset + 1] as u16;
    b0 + 256 * b1
}

pub fn read_u32(data: &[u8], offset: usize) -> (r: u32)
    ensures
        r as nat == u32_le_at(data@, offset as int),
{
    if offset > data.len() || data.len() - offset < 4 {
        return 0;
    }
    let b0: u32 = data[offset] as u32;
    let b1: u32 = data[offset + 1] as u32;
    let b2: u32 = data[offset + 2] as u32;
    let b3: u32 = data[offset + 3] as u32;
    b0 + 256 * b1 + 65536 * b2 + 16777216 * b3
}

pub fn read_i16(data: &[u8], offset: usize) -> (r: i16)
    ensures
        r as int == signed16(u16_le_at(data@, offset as int) as int),
{
    let v: u16 = read_u16(data, offset);
    if v < 32768 {
        v as i16
    } else {
        (v as i32 - 65536) as i16
    }
}

pub fn read_i32(data: &[u8], offset: usize) -> (r: i32)
    ensures
        r as int == signed32(u32_le_at(data@, offset as int) as int),
{
    let v: u32 = read_u32(data, offset);
    if v < 2147483648 {
        v as i32
    } else {
        (v as i64 - 4294967296) as i32
    }
}

/// Reads a signed 32-bit little-endian value; zero where it would run past the end.
pub fn get_i32_le(data: &[u8], offset: usize) -> (r: i32)
    ensures
        r as int == signed32(u32_le_at(data@, offset as int) as int),
{
    read_i32(data, offset)
}

/// Reads an unsigned 32-bit little-endian value; zero where it would run past the end.
pub fn get_u32_le(data: &[u8], offset: usize) -> (r: u32)
    ensures
        r as nat == u32_le_at(data@, offset as int),
{
    read_u32(data, offset)
}

/// Appends the two bytes of `v`, low byte first.
pub fn push_u16(out: &mut Vec<u8>, v: u16)
    ensures
        final(out)@ == old(out)@ + le16(v as int),
{
    out.push((v % 256) as u8);
    out.push((v / 256) as u8);
    assert(final(out)@ =~= old(out)@ + le16(v as int));
}

/// Appends the two bytes of the two's-complement form of `v`, low byte first.
pub fn push_i16(out: &mut Vec<u8>, v: i16)
    ensures
        final(out)@ == old(out)@ + le16(unsigned16(v as int)),
{
    let u: u16 = if v < 0 {
        (v as i32 + 65536) as u16
    } else {
        v as u16
    };
    push_u16(out, u);
}

/// Appends the four bytes of `v`, low byte first.
pub fn push_u32(out: &mut Vec<u8>, v: u32)
    ensures
        final(out)@ == old(out)@ + le32(v as int),
{
    out.push((v % 256) as u8);
    out.push((v / 256 % 256) as u8);
    out.push((v / 65536 % 256) as u8);
    out.push((v / 16777216) as u8);
    assert(final(out)@ =~= old(out)@ + le32(v as int));
}

} // verus!
