//! The store: an append-only log of frames with an index over it.

use crate::codec::{
    decode_at, encode_record, frame_len, frame_of, lemma_record_extent, process_record,
    record_fits, Decoded, Frame, KeyValuePair, HEADER_LEN,
};
use crate::index::Index;
use crate::{ByteStr, ByteString};
use vstd::prelude::*;

verus! {

/// Why an operation on a store failed.
#[derive(Debug, Clone, Copy, PartialEq, Eq)]
pub enum FdbError {
    /// A record's payload does not have the checksum stored in its header.
    Corruption { stored: u32, computed: u32 },
    /// An indexed offset does not hold a complete record.
    UnexpectedEof,
    /// A key or a value is too long for the frame's 32-bit length field.
    RecordTooLarge,
}

/// A key/value store over the byte image of its log.
#[derive(Debug)]
pub struct Fdb {
    log: Vec<u8>,
    /// For each key, the offset of a record in the log.
    pub index: Index,
}

/// A store as a mathematical value: the bytes of its log and its index.
pub struct FdbView {
    pub log: Seq<u8>,
    pub index: Map<Seq<u8>, u64>,
}

/// Where a replay of a log stopped and the index it had built by then.
pub struct Replay {
    /// The index after the last record that was read.
    pub index: Map<Seq<u8>, u64>,
    /// The offset at which no further record was read.
    pub end: int,
    /// What was found at `end`: the end of the log or a corrupt frame.
    pub stop: Frame,
}

/// Replays `log` from offset `pos` on top of `index`: each record read maps
/// its key to the offset at which it starts, later records overriding earlier
/// ones, until the log ends or a corrupt frame is met.
pub open spec fn replay_from(log: Seq<u8>, pos: int, index: Map<Seq<u8>, u64>) -> Replay
    decreases log.len() - pos,
{
    match decode_at(log, pos) {
        Frame::Record { key, value } => replay_from(
            log,
            pos + frame_len(key, value),
            index.insert(key, pos as u64),
        ),
        stop => Replay { index, end: pos, stop },
    }
}

impl Replay {
    /// What a load reports for this replay: success where the log ended,
    /// an error where a corrupt frame stopped it.
    pub open spec fn outcome(self) -> Result<(), FdbError> {
        match self.stop {
            Frame::Corrupt { stored, computed } => Err(FdbError::Corruption { stored, computed }),
            _ => Ok(()),
        }
    }
}

/// What reading one record at offset `pos` of `log` gives: its key and
/// value, or the reason why no record can be read there.
pub open spec fn record_at(log: Seq<u8>, pos: int) -> Result<(Seq<u8>, Seq<u8>), FdbError> {
    match decode_at(log, pos) {
        Frame::Record { key, value } => Ok((key, value)),
        Frame::EndOfLog => Err(FdbError::UnexpectedEof),
        Frame::Corrupt { stored, computed } => Err(FdbError::Corruption { stored, computed }),
    }
}

/// The key and value of a record that was read, as sequences of bytes.
pub open spec fn record_view(found: Result<KeyValuePair, FdbError>) -> Result<
    (Seq<u8>, Seq<u8>),
    FdbError,
> {
    match found {
        Ok(kv) => Ok((kv.key@, kv.value@)),
        Err(error) => Err(error),
    }
}

/// The value that a lookup returned, as a sequence of bytes.
pub open spec fn value_view(found: Result<Option<ByteString>, FdbError>) -> Result<
    Option<Seq<u8>>,
    FdbError,
> {
    match found {
        Ok(Some(value)) => Ok(Some(value@)),
        Ok(None) => Ok(None),
        Err(error) => Err(error),
    }
}

impl FdbView {
    /// The store once the record `(key, value)` is appended and indexed.
    pub open spec fn insert(self, key: Seq<u8>, value: Seq<u8>) -> FdbView {
        FdbView {
            log: self.log + frame_of(key, value),
            index: self.index.insert(key, self.log.len() as u64),
        }
    }

    /// What a lookup of `key` gives: the value of the record that the index
    /// points to, nothing for a key that is not indexed or whose record is
    /// a tombstone, and an error where the offset holds no valid record.
    pub open spec fn get(self, key: Seq<u8>) -> Result<Option<Seq<u8>>, FdbError> {
        if !self.index.contains_key(key) {
            Ok(None)
        } else {
            match record_at(self.log, self.index[key] as int) {
                Ok((_, value)) => if value.len() == 0 {
                    Ok(None)
                } else {
                    Ok(Some(value))
                },
                Err(error) => Err(error),
            }
        }
    }

    /// The replay of the whole log on top of the current index.
    pub open spec fn replay(self) -> Replay {
        replay_from(self.log, 0, self.index)
    }
}

impl View for Fdb {
    type V = FdbView;

    closed spec fn view(&self) -> FdbView {
        FdbView { log: self.log@, index: self.index@ }
    }
}

impl Fdb {
    /// The log is short enough for each of its offsets to fit in a `u64`.
    pub proof fn lemma_log_addressable(&self)
        ensures
            self@.log.len() <= usize::MAX,
    {
        assert(self.log@.len() == self.log.len());
    }

    /// A store over the log image `log`, with an empty index. Nothing of
    /// the log is read until `load` is called.
    pub fn open(log: Vec<u8>) -> (store: Fdb)
        ensures
            store@.log == log@,
            store@.index == Map::<Seq<u8>, u64>::empty(),
    {
        Fdb { log, index: Index::new() }
    }

    /// The index.
    pub fn index(&self) -> (index: &Index)
        ensures
            index@ == self@.index,
    {
        &self.index
    }

    /// The bytes of the log.
    pub fn log(&self) -> (bytes: &[u8])
        ensures
            bytes@ == self@.log,
    {
        self.log.as_slice()
    }

    /// Replays the whole log from offset 0 and indexes every record read.
    /// The replay stops at the end of the log, where a truncated trailing
    /// record counts as the end, and fails at the first corrupt frame.
    pub fn load(&mut self) -> (done: Result<(), FdbError>)
        ensures
            final(self)@.log == old(self)@.log,
            final(self)@.index == old(self)@.replay().index,
            done == old(self)@.replay().outcome(),
    {
        let len = self.log.len();
        let mut pos: usize = 0;
        loop
            invariant
                self.log@ == old(self).log@,
                len == self.log@.len(),
                pos <= len,
                replay_from(self.log@, pos as int, self.index@) == replay_from(
                    old(self).log@,
                    0,
                    old(self).index@,
                ),
            decreases len - pos,
        {
            match process_record(self.log.as_slice(), pos) {
                Decoded::Record(kv) => {
                    proof {
                        lemma_record_extent(self.log@, pos as int);
                    }
                    let next = pos + HEADER_LEN + kv.key.len() + kv.value.len();
                    self.index.insert(kv.key, pos as u64);
                    pos = next;
                },
                Decoded::EndOfLog => {
                    return Ok(());
                },
                Decoded::Corrupt { stored, computed } => {
                    return Err(FdbError::Corruption { stored, computed });
                },
            }
        }
    }

    /// Decodes the one record at offset `pos` of the log.
    pub fn get_at(&self, pos: u64) -> (found: Result<KeyValuePair, FdbError>)
        ensures
            record_view(found) == record_at(self@.log, pos as int),
    {
        if pos > self.log.len() as u64 {
            return Err(FdbError::UnexpectedEof);
        }
        match process_record(self.log.as_slice(), pos as usize) {
            Decoded::Record(kv) => Ok(kv),
            Decoded::EndOfLog => Err(FdbError::UnexpectedEof),
            Decoded::Corrupt { stored, computed } => Err(FdbError::Corruption { stored, computed }),
        }
    }

    /// Looks `key` up: the value of the record that the index points to.
    /// A key that is not indexed, and a key whose record is a tombstone, are
    /// both reported as not found.
    pub fn get(&self, key: &ByteStr) -> (found: Result<Option<ByteString>, FdbError>)
        ensures
            value_view(found) == self@.get(key@),
    {
        let pos = match self.index.get(key) {
            Some(p) => p,
            None => {
                return Ok(None);
            },
        };
        match self.get_at(pos) {
            Ok(kv) => {
                if kv.value.len() > 0 {
                    Ok(Some(kv.value))
                } else {
                    Ok(None)
                }
            },
            Err(error) => Err(error),
        }
    }

    /// Appends the frame of `(key, value)` to the log and returns the offset
    /// at which the frame starts. The index is left as it is.
    pub fn insert_but_ignore_index(&mut self, key: &ByteStr, value: &ByteStr) -> (written: Result<
        u64,
        FdbError,
    >)
        ensures
            record_fits(key@, value@) ==> written == Ok::<u64, FdbError>(
                old(self)@.log.len() as u64,
            ) && final(self)@.log == old(self)@.log + frame_of(key@, value@) && final(self)@.index
                == old(self)@.index,
            !record_fits(key@, value@) ==> written == Err::<u64, FdbError>(
                FdbError::RecordTooLarge,
            ) && final(self)@ == old(self)@,
    {
        let frame = match encode_record(key, value) {
            Some(frame) => frame,
            None => {
                return Err(FdbError::RecordTooLarge);
            },
        };
        let current_pos = self.log.len() as u64;
        self.log.extend_from_slice(frame.as_slice());
        Ok(current_pos)
    }

    /// Appends the record `(key, value)` to the log and points the index of
    /// `key` at it. A record that does not fit the frame is refused and the
    /// store is left unchanged.
    pub fn insert(&mut self, key: &ByteStr, value: &ByteStr) -> (done: Result<(), FdbError>)
        ensures
            record_fits(key@, value@) ==> done.is_ok() && final(self)@ == old(self)@.insert(
                key@,
                value@,
            ),
            !record_fits(key@, value@) ==> done == Err::<(), FdbError>(FdbError::RecordTooLarge)
                && final(self)@ == old(self)@,
    {
        let pos = match self.insert_but_ignore_index(key, value) {
            Ok(pos) => pos,
            Err(error) => {
                return Err(error);
            },
        };
        let mut owned: Vec<u8> = Vec::new();
        owned.extend_from_slice(key);
        proof {
            assert(owned@ =~= key@);
        }
        self.index.insert(owned, pos);
        Ok(())
    }

    /// The same operation as `insert`: a key that is not in the store yet is
    /// created, not refused.
    pub fn update(&mut self, key: &ByteStr, value: &ByteStr) -> (done: Result<(), FdbError>)
        ensures
            record_fits(key@, value@) ==> done.is_ok() && final(self)@ == old(self)@.insert(
                key@,
                value@,
            ),
            !record_fits(key@, value@) ==> done == Err::<(), FdbError>(FdbError::RecordTooLarge)
                && final(self)@ == old(self)@,
    {
        self.insert(key, value)
    }

    /// Deletes `key` by appending a tombstone: a record with an empty value.
    /// The key stays in the index and points at the tombstone.
    pub fn delete(&mut self, key: &ByteStr) -> (done: Result<(), FdbError>)
        ensures
            record_fits(key@, Seq::empty()) ==> done.is_ok() && final(self)@ == old(self)@.insert(
                key@,
                Seq::empty(),
            ),
            !record_fits(key@, Seq::empty()) ==> done == Err::<(), FdbError>(
                FdbError::RecordTooLarge,
            ) && final(self)@ == old(self)@,
    {
        let empty: Vec<u8> = Vec::new();
        self.insert(key, empty.as_slice())
    }
}

} // verus!
