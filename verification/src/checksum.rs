//! The CRC-32 checksum that frames every record.

use vstd::prelude::*;

verus! {

/// The CRC-32 (IEEE polynomial) of a byte sequence, as computed by
/// `crc::crc32::checksum_ieee`. It is a function of the bytes alone; its value
/// is left to the `crc` crate and is not defined here.
pub uninterp spec fn crc32_ieee(bytes: Seq<u8>) -> u32;

/// Calls `crc::crc32::checksum_ieee` on `bytes`.
///
/// Trusted: the result is the CRC-32 (IEEE) of exactly the bytes given, which
/// the contract names `crc32_ieee`. The outside function reads the slice from
/// start to end through a fixed table and does not panic.
#[verifier::external_body]
pub(crate) fn checksum_ieee(bytes: &[u8]) -> (sum: u32)
    ensures
        sum == crc32_ieee(bytes@),
{
    crc::crc32::checksum_ieee(bytes)
}

} // verus!
