//! Little-endian integers as they appear on the wire.
use byteorder::ByteOrder;
use byteorder::LittleEndian;
use vstd::prelude::*;
use vstd::slice::slice_subrange;

verus! {

/// The value of the first four bytes of `s`, read as a little-endian `u32`.
pub open spec fn le_u32(s: Seq<u8>) -> u32
    recommends
        s.len() >= 4,
{
    (s[0] as int + s[1] as int * 0x100 + s[2] as int * 0x1_0000 + s[3] as int * 0x100_0000) as u32
}

/// The value of the first two bytes of `s`, read as a little-endian `u16`,
/// widened to `u32`.
pub open spec fn le_u16(s: Seq<u8>) -> u32
    recommends
        s.len() >= 2,
{
    (s[0] as int + s[1] as int * 0x100) as u32
}

/// The four bytes that `le_u32` reads back as `v`.
pub open spec fn u32_le_bytes(v: u32) -> Seq<u8> {
    seq![
        (v as int % 0x100) as u8,
        (v as int / 0x100 % 0x100) as u8,
        (v as int / 0x1_0000 % 0x100) as u8,
        (v as int / 0x100_0000) as u8,
    ]
}

/// The two bytes that `le_u16` reads back as `v`, for `v` below 65536.
pub open spec fn u16_le_bytes(v: u32) -> Seq<u8> {
    seq![(v as int % 0x100) as u8, (v as int / 0x100 % 0x100) as u8]
}

/// Writing a `u32` in little-endian order and reading it back gives the same
/// value.
pub proof fn lemma_le_u32_round_trip(v: u32)
    ensures
        u32_le_bytes(v).len() == 4,
        le_u32(u32_le_bytes(v)) == v,
{
}

/// Writing a value below 65536 as two little-endian bytes and reading them
/// back gives the same value.
pub proof fn lemma_le_u16_round_trip(v: u32)
    requires
        v < 0x1_0000,
    ensures
        u16_le_bytes(v).len() == 2,
        le_u16(u16_le_bytes(v)) == v,
{
}

/// Combines two bytes into an unsigned 16-bit value, low byte first, and
/// widens it without sign extension.
pub fn u16_from_le(lo: u8, hi: u8) -> (value: u32)
    ensures
        value == le_u16(seq![lo, hi]),
        value < 0x1_0000,
{
    let value: u32 = (lo as u32) | ((hi as u32) << 8);
    assert(((lo as u32) | ((hi as u32) << 8)) == lo as u32 + (hi as u32) * 0x100) by (bit_vector);
    value
}

/// Reads a little-endian `u32` at offset `at` of `bytes`.
pub fn le_u32_at(bytes: &[u8], at: usize) -> (value: u32)
    requires
        at + 4 <= bytes.len(),
    ensures
        value == le_u32(bytes@.subrange(at as int, at + 4)),
{
    let b0: u32 = bytes[at] as u32;
    let b1: u32 = bytes[at + 1] as u32;
    let b2: u32 = bytes[at + 2] as u32;
    let b3: u32 = bytes[at + 3] as u32;
    b0 + b1 * 0x100 + b2 * 0x1_0000 + b3 * 0x100_0000
}

/// `byteorder::LittleEndian::read_u32` on `buf`: the crate documents that it
/// reads an unsigned 32-bit integer from the front of `buf` in little-endian
/// order and panics when `buf` holds fewer than four bytes.
#[verifier::external_body]
pub(crate) fn read_u32_le(buf: &[u8]) -> (value: u32)
    requires
        buf.len() >= 4,
    ensures
        value == le_u32(buf@),
{
    LittleEndian::read_u32(buf)
}

/// Reads a little-endian `u32` at offset `at` of `bytes` through `byteorder`.
pub fn wire_u32_at(bytes: &[u8], at: usize) -> (value: u32)
    requires
        at + 4 <= bytes.len(),
    ensures
        value == le_u32(bytes@.subrange(at as int, at + 4)),
{
    read_u32_le(slice_subrange(bytes, at, at + 4))
}

} // verus!
