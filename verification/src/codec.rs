//! The record codec: the on-disk frame of one key/value record.
//!
//! A frame is a 12-byte header followed by the payload. The header holds, in
//! little-endian order, the CRC-32 of the payload, the key's length and the
//! value's length. The payload is the key followed by the value.

use crate::checksum::{checksum_ieee, crc32_ieee};
use crate::endian::{lemma_u32_le_round_trip, read_u32_le, u32_from_le, u32_to_le, write_u32_le};
use crate::ByteString;
use vstd::prelude::*;
use vstd::slice::slice_subrange;

verus! {

/// The number of bytes in a frame's header.
pub const HEADER_LEN: usize = 12;

/// One key/value record. A record whose value is empty is a tombstone.
#[derive(Debug, Clone, PartialEq, Eq)]
pub struct KeyValuePair {
    pub key: ByteString,
    pub value: ByteString,
}

/// What the bytes at one offset of a log hold, as a mathematical value.
pub enum Frame {
    /// A complete record whose checksum matches.
    Record { key: Seq<u8>, value: Seq<u8> },
    /// The log ends before the frame does, in the header or in the payload.
    EndOfLog,
    /// A complete frame whose payload does not have the checksum that its
    /// header stores.
    Corrupt { stored: u32, computed: u32 },
}

/// What decoding at one offset of a log gave.
#[derive(Debug, Clone, PartialEq, Eq)]
pub enum Decoded {
    /// A complete record whose checksum matches.
    Record(KeyValuePair),
    /// The log ends before the frame does. A clean end of the log and a
    /// truncated trailing record both read as this.
    EndOfLog,
    /// The payload's checksum, `computed`, differs from the one in the
    /// header, `stored`.
    Corrupt { stored: u32, computed: u32 },
}

impl View for Decoded {
    type V = Frame;

    open spec fn view(&self) -> Frame {
        match *self {
            Decoded::Record(kv) => Frame::Record { key: kv.key@, value: kv.value@ },
            Decoded::EndOfLog => Frame::EndOfLog,
            Decoded::Corrupt { stored, computed } => Frame::Corrupt { stored, computed },
        }
    }
}

/// Whether a key or value of `len` bytes fits the frame's 32-bit length field.
pub open spec fn fits_length_field(len: nat) -> bool {
    len <= u32::MAX
}

/// Whether both lengths of the record `(key, value)` fit their fields, so
/// that the record has a frame.
pub open spec fn record_fits(key: Seq<u8>, value: Seq<u8>) -> bool {
    fits_length_field(key.len()) && fits_length_field(value.len())
}

/// Whether a key or value of `len` bytes fits the frame's 32-bit length field.
pub fn length_fits(len: usize) -> (fits: bool)
    ensures
        fits == fits_length_field(len as nat),
{
    len <= u32::MAX as usize
}

/// The 12 bytes of a header: checksum, key length, value length, each in
/// little-endian order.
pub open spec fn header_of(checksum: u32, key_len: u32, val_len: u32) -> Seq<u8> {
    u32_to_le(checksum) + u32_to_le(key_len) + u32_to_le(val_len)
}

/// The frame of the record `(key, value)`: the header, then the key, then the
/// value. The checksum is that of the key followed by the value.
pub open spec fn frame_of(key: Seq<u8>, value: Seq<u8>) -> Seq<u8>
    recommends
        record_fits(key, value),
{
    header_of(crc32_ieee(key + value), key.len() as u32, value.len() as u32) + key + value
}

/// The number of bytes that the frame of a record takes in the log.
pub open spec fn frame_len(key: Seq<u8>, value: Seq<u8>) -> int {
    HEADER_LEN as int + key.len() + value.len()
}

/// The little-endian header field that starts `at` bytes into `log`.
pub open spec fn header_field(log: Seq<u8>, at: int) -> int {
    u32_from_le(log.subrange(at, at + 4))
}

/// What the bytes of `log` hold at offset `pos`.
pub open spec fn decode_at(log: Seq<u8>, pos: int) -> Frame {
    if pos < 0 || pos + HEADER_LEN as int > log.len() {
        Frame::EndOfLog
    } else {
        let stored = header_field(log, pos);
        let key_len = header_field(log, pos + 4);
        let val_len = header_field(log, pos + 8);
        let start = pos + HEADER_LEN as int;
        if start + key_len + val_len > log.len() {
            Frame::EndOfLog
        } else {
            let payload = log.subrange(start, start + key_len + val_len);
            let computed = crc32_ieee(payload);
            if computed != stored {
                Frame::Corrupt { stored: stored as u32, computed }
            } else {
                Frame::Record {
                    key: payload.subrange(0, key_len),
                    value: payload.subrange(key_len, key_len + val_len),
                }
            }
        }
    }
}

/// A complete frame decodes to a record exactly when its payload has the
/// checksum that its header stores, and is reported as corrupt otherwise,
/// whatever precedes and follows the frame in the log. So damage to the
/// payload or to the stored checksum is never read as the record written:
/// it is detected unless the damaged frame is itself a valid one.
pub proof fn lemma_decode_complete_frame(
    before: Seq<u8>,
    stored: u32,
    key_len: u32,
    val_len: u32,
    payload: Seq<u8>,
    after: Seq<u8>,
)
    requires
        payload.len() == key_len + val_len,
    ensures
        crc32_ieee(payload) == stored ==> decode_at(
            before + header_of(stored, key_len, val_len) + payload + after,
            before.len() as int,
        ) == (Frame::Record {
            key: payload.subrange(0, key_len as int),
            value: payload.subrange(key_len as int, key_len + val_len),
        }),
        crc32_ieee(payload) != stored ==> decode_at(
            before + header_of(stored, key_len, val_len) + payload + after,
            before.len() as int,
        ) == (Frame::Corrupt { stored, computed: crc32_ieee(payload) }),
{
    let log = before + header_of(stored, key_len, val_len) + payload + after;
    let pos = before.len() as int;
    lemma_u32_le_round_trip(stored);
    lemma_u32_le_round_trip(key_len);
    lemma_u32_le_round_trip(val_len);
    assert(log.subrange(pos, pos + 4) =~= u32_to_le(stored));
    assert(log.subrange(pos + 4, pos + 8) =~= u32_to_le(key_len));
    assert(log.subrange(pos + 8, pos + 12) =~= u32_to_le(val_len));
    let start = pos + HEADER_LEN as int;
    assert(log.subrange(start, start + key_len + val_len) =~= payload);
}

/// Decoding a frame gives back the record it was built from, whatever
/// precedes and follows the frame in the log.
pub proof fn lemma_decode_frame(before: Seq<u8>, key: Seq<u8>, value: Seq<u8>, after: Seq<u8>)
    requires
        record_fits(key, value),
    ensures
        frame_of(key, value).len() == frame_len(key, value),
        decode_at(before + frame_of(key, value) + after, before.len() as int) == (Frame::Record {
            key,
            value,
        }),
{
    let payload = key + value;
    let header = header_of(crc32_ieee(payload), key.len() as u32, value.len() as u32);
    lemma_decode_complete_frame(
        before,
        crc32_ieee(payload),
        key.len() as u32,
        value.len() as u32,
        payload,
        after,
    );
    assert(header.len() == HEADER_LEN);
    assert(header + key + value =~= header + payload);
    assert(before + (header + payload) =~= before + header + payload);
    assert(payload.subrange(0, key.len() as int) =~= key);
    assert(payload.subrange(key.len() as int, (key.len() + value.len()) as int) =~= value);
}

/// A record is only ever decoded from bytes whose checksum matches: the
/// key and value returned are the payload that the stored checksum covers.
pub proof fn lemma_record_checksum(log: Seq<u8>, pos: int)
    requires
        decode_at(log, pos) is Record,
    ensures
        crc32_ieee(decode_at(log, pos)->key + decode_at(log, pos)->value) == header_field(
            log,
            pos,
        ),
        decode_at(log, pos)->key + decode_at(log, pos)->value == log.subrange(
            pos + HEADER_LEN as int,
            pos + frame_len(decode_at(log, pos)->key, decode_at(log, pos)->value),
        ),
{
    let key = decode_at(log, pos)->key;
    let value = decode_at(log, pos)->value;
    let start = pos + HEADER_LEN as int;
    assert(key + value =~= log.subrange(start, start + key.len() + value.len()));
}

/// A frame that is complete in a log reads the same however the log is
/// extended: appending never changes what was already written.
pub proof fn lemma_decode_stable(log: Seq<u8>, more: Seq<u8>, pos: int)
    requires
        decode_at(log, pos) != Frame::EndOfLog,
    ensures
        decode_at(log + more, pos) == decode_at(log, pos),
{
    let longer = log + more;
    assert(longer.subrange(pos, pos + 4) =~= log.subrange(pos, pos + 4));
    assert(longer.subrange(pos + 4, pos + 8) =~= log.subrange(pos + 4, pos + 8));
    assert(longer.subrange(pos + 8, pos + 12) =~= log.subrange(pos + 8, pos + 12));
    let start = pos + HEADER_LEN as int;
    let data_len = header_field(log, pos + 4) + header_field(log, pos + 8);
    assert(longer.subrange(start, start + data_len) =~= log.subrange(start, start + data_len));
}

/// A decoded record lies wholly inside the log, and its lengths are those of
/// the header.
pub proof fn lemma_record_extent(log: Seq<u8>, pos: int)
    requires
        decode_at(log, pos) is Record,
    ensures
        0 <= pos,
        pos + frame_len(decode_at(log, pos)->key, decode_at(log, pos)->value) <= log.len(),
        decode_at(log, pos)->key.len() == header_field(log, pos + 4),
        decode_at(log, pos)->value.len() == header_field(log, pos + 8),
{
}

/// Builds the frame of `(key, value)`, or `None` where a length does not fit
/// its 32-bit field.
pub fn encode_record(key: &[u8], value: &[u8]) -> (out: Option<Vec<u8>>)
    ensures
        record_fits(key@, value@) ==> out.is_some() && out.unwrap()@ == frame_of(key@, value@),
        !record_fits(key@, value@) ==> out.is_none(),
{
    let key_len = key.len();
    let val_len = value.len();
    if !length_fits(key_len) || !length_fits(val_len) {
        return None;
    }
    let mut temp: Vec<u8> = Vec::new();
    temp.extend_from_slice(key);
    temp.extend_from_slice(value);
    let checksum = checksum_ieee(temp.as_slice());

    let mut out: Vec<u8> = Vec::new();
    out.extend_from_slice(&write_u32_le(checksum));
    out.extend_from_slice(&write_u32_le(key_len as u32));
    out.extend_from_slice(&write_u32_le(val_len as u32));
    out.extend_from_slice(temp.as_slice());
    proof {
        assert(temp@ =~= key@ + value@);
        assert(out@ =~= frame_of(key@, value@));
    }
    Some(out)
}

/// Decodes the one record that starts at offset `pos` of `log`.
pub fn process_record(log: &[u8], pos: usize) -> (out: Decoded)
    ensures
        out@ == decode_at(log@, pos as int),
{
    let len = log.len();
    if pos > len || len - pos < HEADER_LEN {
        return Decoded::EndOfLog;
    }
    let saved_checksum = read_u32_le(slice_subrange(log, pos, pos + 4));
    let key_len = read_u32_le(slice_subrange(log, pos + 4, pos + 8));
    let val_len = read_u32_le(slice_subrange(log, pos + 8, pos + 12));
    proof {
        assert(log@.subrange(pos as int, pos + 4).subrange(0, 4) =~= log@.subrange(
            pos as int,
            pos + 4,
        ));
        assert(log@.subrange(pos + 4, pos + 8).subrange(0, 4) =~= log@.subrange(pos + 4, pos + 8));
        assert(log@.subrange(pos + 8, pos + 12).subrange(0, 4) =~= log@.subrange(
            pos + 8,
            pos + 12,
        ));
    }
    let start = pos + HEADER_LEN;
    let data_len = key_len as u64 + val_len as u64;
    if data_len > (len - start) as u64 {
        return Decoded::EndOfLog;
    }
    let payload = slice_subrange(log, start, start + data_len as usize);
    let checksum = checksum_ieee(payload);
    if checksum != saved_checksum {
        return Decoded::Corrupt { stored: saved_checksum, computed: checksum };
    }
    let mut data: Vec<u8> = Vec::new();
    data.extend_from_slice(payload);
    let value = data.split_off(key_len as usize);
    let key = data;
    proof {
        assert(key@ =~= payload@.subrange(0, key_len as int));
        assert(value@ =~= payload@.subrange(key_len as int, key_len + val_len));
    }
    Decoded::Record(KeyValuePair { key, value })
}

} // verus!
