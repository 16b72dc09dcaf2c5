//! Little-endian encoding of the 32-bit header fields.

use byteorder::{ByteOrder, LittleEndian};
use vstd::prelude::*;

verus! {

/// The value of four bytes read in little-endian order: the first byte is the
/// least significant.
pub open spec fn u32_from_le(bytes: Seq<u8>) -> int
    recommends
        bytes.len() == 4,
{
    bytes[0] as int + 0x100 * (bytes[1] as int) + 0x1_0000 * (bytes[2] as int) + 0x100_0000 * (
    bytes[3] as int)
}

/// The four bytes of `n` in little-endian order.
pub open spec fn u32_to_le(n: u32) -> Seq<u8> {
    seq![
        (n as int % 0x100) as u8,
        (n as int / 0x100 % 0x100) as u8,
        (n as int / 0x1_0000 % 0x100) as u8,
        (n as int / 0x100_0000 % 0x100) as u8,
    ]
}

/// Reading back what was written gives the number that was written.
pub proof fn lemma_u32_le_round_trip(n: u32)
    ensures
        u32_to_le(n).len() == 4,
        u32_from_le(u32_to_le(n)) == n,
{
}

/// Calls `byteorder::LittleEndian::read_u32` on `buf`.
///
/// Trusted: the result is the little-endian value of the first four bytes of
/// `buf`. The outside function panics on fewer than four bytes, which the
/// precondition leaves out.
#[verifier::external_body]
pub(crate) fn read_u32_le(buf: &[u8]) -> (n: u32)
    requires
        buf@.len() >= 4,
    ensures
        n == u32_from_le(buf@.subrange(0, 4)),
{
    LittleEndian::read_u32(buf)
}

/// Calls `byteorder::LittleEndian::write_u32` on a fresh four-byte buffer.
///
/// Trusted: the buffer then holds the four bytes of `n`, least significant
/// first.
#[verifier::external_body]
pub(crate) fn write_u32_le(n: u32) -> (out: [u8; 4])
    ensures
        out@ == u32_to_le(n),
{
    let mut out = [0u8; 4];
    LittleEndian::write_u32(&mut out, n);
    out
}

} // verus!
