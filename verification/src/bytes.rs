//! Little-endian integer decoding, as the game's formats store every field.

use byteorder::{ByteOrder, LittleEndian};
use vstd::prelude::*;

verus! {

/// The unsigned 16-bit little-endian value of the two bytes of `s` at `at`.
pub open spec fn le16(s: Seq<u8>, at: int) -> u16 {
    (s[at] as int + 256 * (s[at + 1] as int)) as u16
}

/// The unsigned 32-bit little-endian value of the four bytes of `s` at `at`.
pub open spec fn le32(s: Seq<u8>, at: int) -> u32 {
    (s[at] as int + 256 * (s[at + 1] as int) + 65536 * (s[at + 2] as int) + 16777216 * (
    s[at + 3] as int)) as u32
}

/// Reads an unsigned 16-bit little-endian integer with `LittleEndian::read_u16`
/// of byteorder, which decodes the first two bytes of `buf` and panics on a
/// shorter buffer.
#[verifier::external_body]
pub(crate) fn read_u16_le(buf: &[u8]) -> (r: u16)
    requires
        buf@.len() >= 2,
    ensures
        r == le16(buf@, 0),
{
    LittleEndian::read_u16(buf)
}

/// The signed value whose two's-complement bits are `v`.
pub open spec fn sign16(v: u16) -> i16 {
    if v < 0x8000 {
        v as i16
    } else {
        (v as int - 0x10000) as i16
    }
}

/// Reads a signed 16-bit little-endian integer with `LittleEndian::read_i16`
/// of byteorder, which reinterprets the first two bytes of `buf` as a
/// two's-complement number and panics on a shorter buffer.
#[verifier::external_body]
pub(crate) fn read_i16_le(buf: &[u8]) -> (r: i16)
    requires
        buf@.len() >= 2,
    ensures
        r == sign16(le16(buf@, 0)),
{
    LittleEndian::read_i16(buf)
}

/// Reads an unsigned 32-bit little-endian integer with `LittleEndian::read_u32`
/// of byteorder, which decodes the first four bytes of `buf` and panics on a
/// shorter buffer.
#[verifier::external_body]
pub(crate) fn read_u32_le(buf: &[u8]) -> (r: u32)
    requires
        buf@.len() >= 4,
    ensures
        r == le32(buf@, 0),
{
    LittleEndian::read_u32(buf)
}

/// The 16-bit value at `at` of `buf`, read through byteorder.
pub fn u16_at(buf: &[u8], at: usize) -> (r: u16)
    requires
        at + 2 <= buf@.len(),
    ensures
        r == le16(buf@, at as int),
{
    let n: usize = buf.len();
    let part: &[u8] = &buf[at..at + 2];
    read_u16_le(part)
}

/// The signed 16-bit value at `at` of `buf`, read through byteorder.
pub fn i16_at(buf: &[u8], at: usize) -> (r: i16)
    requires
        at + 2 <= buf@.len(),
    ensures
        r == sign16(le16(buf@, at as int)),
{
    let n: usize = buf.len();
    let part: &[u8] = &buf[at..at + 2];
    read_i16_le(part)
}

/// The 32-bit value at `at` of `buf`, read through byteorder.
pub fn u32_at(buf: &[u8], at: usize) -> (r: u32)
    requires
        at + 4 <= buf@.len(),
    ensures
        r == le32(buf@, at as int),
{
    let n: usize = buf.len();
    let part: &[u8] = &buf[at..at + 4];
    read_u32_le(part)
}

} // verus!
