//! The 32-bit integrity code stored in every record header.

use vstd::prelude::*;

verus! {

/// The IEEE CRC-32 checksum of a byte sequence. The checksum is a pure
/// function of the bytes; its value is fixed by the `crc` crate.
pub uninterp spec fn crc32_of(data: Seq<u8>) -> u32;

/// Relies on crc::crc32::checksum_ieee: the IEEE CRC-32 of the bytes,
/// a pure function of the byte slice alone.
#[verifier::external_body]
pub(crate) fn crc32_ieee(data: &[u8]) -> (r: u32)
    ensures
        r == crc32_of(data@),
{
    crc::crc32::checksum_ieee(data)
}

} // verus!
