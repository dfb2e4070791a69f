//! Little-endian integer reads from byte slices.

use vstd::prelude::*;
use zerocopy::ByteOrder;

verus! {

/// The little-endian value of the first two bytes of `b`.
pub open spec fn spec_u16_le(b: Seq<u8>) -> u16 {
    (b[0] as int + b[1] as int * 0x100) as u16
}

/// The little-endian value of the first four bytes of `b`.
pub open spec fn spec_u32_le(b: Seq<u8>) -> u32 {
    (b[0] as int + b[1] as int * 0x100 + b[2] as int * 0x1_0000 + b[3] as int * 0x100_0000) as u32
}

/// The little-endian value of the first eight bytes of `b`.
pub open spec fn spec_u64_le(b: Seq<u8>) -> u64 {
    (spec_u32_le(b) as int + spec_u32_le(b.subrange(4, 8)) as int * 0x1_0000_0000) as u64
}

/// Reads a `u16` from the first two bytes of `buf` with
/// `zerocopy::LittleEndian::read_u16` (the `byteorder` crate's impl, which
/// zerocopy re-exports). Its source builds the value with `u16::from_le_bytes`
/// of `buf[..2]`, and panics when `buf` is shorter than two bytes.
#[verifier::external_body]
pub(crate) fn read_u16_le(buf: &[u8]) -> (v: u16)
    requires
        buf@.len() >= 2,
    ensures
        v == spec_u16_le(buf@),
{
    zerocopy::LittleEndian::read_u16(buf)
}

/// Reads a `u32` from the first four bytes of `buf` with
/// `zerocopy::LittleEndian::read_u32`, which is `u32::from_le_bytes` of
/// `buf[..4]` and panics when `buf` is shorter than four bytes.
#[verifier::external_body]
pub(crate) fn read_u32_le(buf: &[u8]) -> (v: u32)
    requires
        buf@.len() >= 4,
    ensures
        v == spec_u32_le(buf@),
{
    zerocopy::LittleEndian::read_u32(buf)
}

/// Reads a `u64` from the first eight bytes of `buf` with
/// `zerocopy::LittleEndian::read_u64`, which is `u64::from_le_bytes` of
/// `buf[..8]` and panics when `buf` is shorter than eight bytes.
#[verifier::external_body]
pub(crate) fn read_u64_le(buf: &[u8]) -> (v: u64)
    requires
        buf@.len() >= 8,
    ensures
        v == spec_u64_le(buf@),
{
    zerocopy::LittleEndian::read_u64(buf)
}

} // verus!
