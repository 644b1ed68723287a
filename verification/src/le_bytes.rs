use vstd::prelude::*;
use byteorder::ByteOrder;

verus! {

/// The little-endian value of the first four bytes of `b`.
pub open spec fn spec_le_u32(b: Seq<u8>) -> u32 {
    (b[0] as u32) | ((b[1] as u32) << 8) | ((b[2] as u32) << 16) | ((b[3] as u32) << 24)
}

/// The little-endian value of the first two bytes of `b`.
pub open spec fn spec_le_u16(b: Seq<u8>) -> u16 {
    ((b[0] as u16) | ((b[1] as u16) << 8)) as u16
}

/// Calls `byteorder::LittleEndian::read_u32`, which decodes the first four bytes of
/// `buf` as a little-endian `u32`; it panics on a shorter slice, so `requires` leaves
/// those out.
#[verifier::external_body]
pub fn read_le_u32(buf: &[u8]) -> (r: u32)
    requires
        buf@.len() >= 4,
    ensures
        r == spec_le_u32(buf@),
{
    byteorder::LittleEndian::read_u32(buf)
}

/// Calls `byteorder::LittleEndian::read_u16`, which decodes the first two bytes of
/// `buf` as a little-endian `u16`; it panics on a shorter slice.
#[verifier::external_body]
pub fn read_le_u16(buf: &[u8]) -> (r: u16)
    requires
        buf@.len() >= 2,
    ensures
        r == spec_le_u16(buf@),
{
    byteorder::LittleEndian::read_u16(buf)
}

} // verus!
