//! What holds of every store: lookups after writes, tombstones, and the
//! agreement between the index kept in memory and a replay of the log.

use crate::checksum::crc32_ieee;
use crate::codec::{
    decode_at, frame_len, frame_of, header_of, lemma_decode_complete_frame, lemma_decode_frame,
    lemma_decode_stable, record_fits, Frame,
};
use crate::store::{replay_from, FdbError, FdbView, Replay};
use vstd::prelude::*;

verus! {

/// The store with an empty log and an empty index.
pub open spec fn empty_store() -> FdbView {
    FdbView { log: Seq::empty(), index: Map::empty() }
}

/// The store that results from writing `records`, in order, to an empty
/// store.
pub open spec fn written(records: Seq<(Seq<u8>, Seq<u8>)>) -> FdbView
    decreases records.len(),
{
    if records.len() == 0 {
        empty_store()
    } else {
        written(records.drop_last()).insert(records.last().0, records.last().1)
    }
}

/// The index is exactly what a replay of the log into an empty index
/// builds, and that replay reads the log to its last byte.
pub open spec fn in_step(store: FdbView) -> bool {
    replay_from(store.log, 0, Map::empty()) == (Replay {
        index: store.index,
        end: store.log.len() as int,
        stop: Frame::EndOfLog,
    })
}

/// What a lookup gives for a key whose latest record holds `value`.
pub open spec fn visible(value: Seq<u8>) -> Result<Option<Seq<u8>>, FdbError> {
    if value.len() == 0 {
        Ok(None)
    } else {
        Ok(Some(value))
    }
}

/// After a record is written, a lookup of its key gives its value; an empty
/// value reads as not found.
pub proof fn lemma_insert_then_get(store: FdbView, key: Seq<u8>, value: Seq<u8>)
    requires
        store.log.len() <= u64::MAX,
        record_fits(key, value),
    ensures
        store.insert(key, value).get(key) == visible(value),
        value.len() > 0 ==> store.insert(key, value).get(key) == Ok::<Option<Seq<u8>>, FdbError>(
            Some(value),
        ),
{
    lemma_decode_frame(store.log, key, value, Seq::empty());
    assert(store.log + frame_of(key, value) + Seq::<u8>::empty() =~= store.log + frame_of(
        key,
        value,
    ));
}

/// After a key is deleted, a lookup of it gives nothing, although the key
/// is still indexed.
pub proof fn lemma_delete_then_get(store: FdbView, key: Seq<u8>)
    requires
        store.log.len() <= u64::MAX,
        record_fits(key, Seq::empty()),
    ensures
        store.insert(key, Seq::empty()).get(key) == Ok::<Option<Seq<u8>>, FdbError>(None),
        store.insert(key, Seq::empty()).index.contains_key(key),
{
    lemma_insert_then_get(store, key, Seq::empty());
}

/// Of two writes to one key the later one is the one that a lookup sees.
pub proof fn lemma_last_write_wins(store: FdbView, key: Seq<u8>, first: Seq<u8>, second: Seq<u8>)
    requires
        store.log.len() + frame_len(key, first) <= u64::MAX,
        record_fits(key, first),
        record_fits(key, second),
    ensures
        store.insert(key, first).insert(key, second).get(key) == visible(second),
{
    lemma_decode_frame(store.log, key, first, Seq::empty());
    lemma_insert_then_get(store.insert(key, first), key, second);
}

/// A write to one key leaves the lookups of all other keys as they were,
/// provided their records were complete.
pub proof fn lemma_insert_keeps_others(
    store: FdbView,
    key: Seq<u8>,
    value: Seq<u8>,
    other: Seq<u8>,
)
    requires
        other != key,
        store.get(other) != Err::<Option<Seq<u8>>, FdbError>(FdbError::UnexpectedEof),
    ensures
        store.insert(key, value).get(other) == store.get(other),
{
    if store.index.contains_key(other) {
        lemma_decode_stable(store.log, frame_of(key, value), store.index[other] as int);
    }
}

/// Extending a log that a replay has read to its last byte: the replay of
/// the longer log goes through the same records and continues where the
/// shorter log ended.
pub proof fn lemma_replay_extended(
    log: Seq<u8>,
    more: Seq<u8>,
    pos: int,
    index: Map<Seq<u8>, u64>,
)
    requires
        replay_from(log, pos, index).stop == Frame::EndOfLog,
        replay_from(log, pos, index).end == log.len(),
    ensures
        replay_from(log + more, pos, index) == replay_from(
            log + more,
            log.len() as int,
            replay_from(log, pos, index).index,
        ),
    decreases log.len() - pos,
{
    match decode_at(log, pos) {
        Frame::Record { key, value } => {
            lemma_decode_stable(log, more, pos);
            lemma_replay_extended(
                log,
                more,
                pos + frame_len(key, value),
                index.insert(key, pos as u64),
            );
        },
        _ => {},
    }
}

/// A write keeps the index in step with the log: if the index was what a
/// replay of the log builds, it still is after the record is appended.
pub proof fn lemma_insert_keeps_in_step(store: FdbView, key: Seq<u8>, value: Seq<u8>)
    requires
        in_step(store),
        record_fits(key, value),
    ensures
        in_step(store.insert(key, value)),
{
    let frame = frame_of(key, value);
    let after = store.insert(key, value);
    let empty = Map::<Seq<u8>, u64>::empty();
    lemma_replay_extended(store.log, frame, 0, empty);
    lemma_decode_frame(store.log, key, value, Seq::empty());
    assert(store.log + frame + Seq::<u8>::empty() =~= after.log);
    let next = store.log.len() + frame_len(key, value);
    assert(next == after.log.len());
    assert(decode_at(after.log, next) == Frame::EndOfLog);
    assert(replay_from(after.log, next, after.index) == (Replay {
        index: after.index,
        end: next,
        stop: Frame::EndOfLog,
    }));
}

/// Writing any records to an empty store, then replaying the resulting log
/// into an empty index, rebuilds the index that the writes left in memory.
pub proof fn lemma_replay_rebuilds_index(records: Seq<(Seq<u8>, Seq<u8>)>)
    requires
        forall|i: int|
            0 <= i < records.len() ==> record_fits((#[trigger] records[i]).0, records[i].1),
    ensures
        in_step(written(records)),
        replay_from(written(records).log, 0, Map::empty()).index == written(records).index,
    decreases records.len(),
{
    if records.len() > 0 {
        let front = records.drop_last();
        assert forall|i: int| 0 <= i < front.len() implies record_fits(
            (#[trigger] front[i]).0,
            front[i].1,
        ) by {
            assert(front[i] == records[i]);
        }
        lemma_replay_rebuilds_index(front);
        lemma_insert_keeps_in_step(written(front), records.last().0, records.last().1);
    }
}

/// A replay that has read a log to its last byte, and then meets a complete
/// frame whose payload does not have the stored checksum, stops there and
/// reports the corruption: the records behind the damage are indexed, those
/// after it are not.
pub proof fn lemma_replay_detects_damage(
    before: Seq<u8>,
    index: Map<Seq<u8>, u64>,
    stored: u32,
    key_len: u32,
    val_len: u32,
    payload: Seq<u8>,
    after: Seq<u8>,
)
    requires
        replay_from(before, 0, index).stop == Frame::EndOfLog,
        replay_from(before, 0, index).end == before.len(),
        payload.len() == key_len + val_len,
    ensures
        crc32_ieee(payload) != stored ==> replay_from(
            before + header_of(stored, key_len, val_len) + payload + after,
            0,
            index,
        ) == (Replay {
            index: replay_from(before, 0, index).index,
            end: before.len() as int,
            stop: Frame::Corrupt { stored, computed: crc32_ieee(payload) },
        }),
{
    let rest = header_of(stored, key_len, val_len) + payload + after;
    let log = before + header_of(stored, key_len, val_len) + payload + after;
    assert(log =~= before + rest);
    lemma_replay_extended(before, rest, 0, index);
    lemma_decode_complete_frame(before, stored, key_len, val_len, payload, after);
}

/// A replay overrides the index it starts from with the index that the log
/// alone gives: the keys of the log's records take their replayed offsets,
/// and all other keys keep the offsets they had.
pub proof fn lemma_replay_overrides(log: Seq<u8>, pos: int, index: Map<Seq<u8>, u64>)
    ensures
        replay_from(log, pos, index).index == index.union_prefer_right(
            replay_from(log, pos, Map::empty()).index,
        ),
        replay_from(log, pos, index).end == replay_from(log, pos, Map::empty()).end,
        replay_from(log, pos, index).stop == replay_from(log, pos, Map::empty()).stop,
    decreases log.len() - pos,
{
    let empty = Map::<Seq<u8>, u64>::empty();
    match decode_at(log, pos) {
        Frame::Record { key, value } => {
            let next = pos + frame_len(key, value);
            lemma_replay_overrides(log, next, index.insert(key, pos as u64));
            lemma_replay_overrides(log, next, empty.insert(key, pos as u64));
            let rest = replay_from(log, next, empty).index;
            assert(index.insert(key, pos as u64).union_prefer_right(rest)
                =~= index.union_prefer_right(
                empty.insert(key, pos as u64).union_prefer_right(rest),
            ));
        },
        _ => {
            assert(index.union_prefer_right(empty) =~= index);
        },
    }
}

/// Replaying a log a second time changes nothing: the index that one replay
/// built is the index that any further replay of the same log builds.
pub proof fn lemma_replay_idempotent(store: FdbView)
    ensures
        (FdbView { log: store.log, index: store.replay().index }).replay() == store.replay(),
{
    let once = store.replay().index;
    let alone = replay_from(store.log, 0, Map::empty()).index;
    lemma_replay_overrides(store.log, 0, store.index);
    lemma_replay_overrides(store.log, 0, once);
    assert(once.union_prefer_right(alone) =~= once);
}

/// Every key of the index points at a complete, valid record of that key.
pub open spec fn indexed(store: FdbView) -> bool {
    forall|key: Seq<u8>| #[trigger]
        store.index.contains_key(key) ==> decode_at(store.log, store.index[key] as int) is Record
            && decode_at(store.log, store.index[key] as int)->key == key
}

/// A replay keeps every key of the index pointing at a record of that key.
pub proof fn lemma_replay_keeps_indexed(log: Seq<u8>, pos: int, index: Map<Seq<u8>, u64>)
    requires
        log.len() <= u64::MAX,
        indexed(FdbView { log, index }),
    ensures
        indexed(FdbView { log, index: replay_from(log, pos, index).index }),
    decreases log.len() - pos,
{
    match decode_at(log, pos) {
        Frame::Record { key, value } => {
            let next = index.insert(key, pos as u64);
            assert forall|k: Seq<u8>| #[trigger] next.contains_key(k) implies decode_at(
                log,
                next[k] as int,
            ) is Record && decode_at(log, next[k] as int)->key == k by {
                if k != key {
                    assert(index.contains_key(k));
                }
            }
            lemma_replay_keeps_indexed(log, pos + frame_len(key, value), next);
        },
        _ => {},
    }
}

/// A write keeps every key of the index pointing at a record of that key.
pub proof fn lemma_insert_keeps_indexed(store: FdbView, key: Seq<u8>, value: Seq<u8>)
    requires
        store.log.len() <= u64::MAX,
        indexed(store),
        record_fits(key, value),
    ensures
        indexed(store.insert(key, value)),
{
    let after = store.insert(key, value);
    lemma_decode_frame(store.log, key, value, Seq::empty());
    assert(store.log + frame_of(key, value) + Seq::<u8>::empty() =~= after.log);
    assert forall|k: Seq<u8>| #[trigger] after.index.contains_key(k) implies decode_at(
        after.log,
        after.index[k] as int,
    ) is Record && decode_at(after.log, after.index[k] as int)->key == k by {
        if k != key {
            assert(store.index.contains_key(k));
            lemma_decode_stable(store.log, frame_of(key, value), store.index[k] as int);
        }
    }
}

/// Where every key of the index points at a record of that key, no lookup
/// fails: it gives the value of that record, or nothing for a tombstone or
/// a key that is not indexed.
pub proof fn lemma_indexed_get_succeeds(store: FdbView, key: Seq<u8>)
    requires
        indexed(store),
    ensures
        store.get(key) is Ok,
        store.index.contains_key(key) ==> store.get(key) == visible(
            decode_at(store.log, store.index[key] as int)->value,
        ),
{
    if store.index.contains_key(key) {
        assert(decode_at(store.log, store.index[key] as int) is Record);
    }
}

/// An empty log replays to an empty index without error, and a lookup in
/// the empty store finds nothing.
pub proof fn lemma_empty_store(key: Seq<u8>)
    ensures
        in_step(empty_store()),
        empty_store().replay() == (Replay {
            index: Map::empty(),
            end: 0,
            stop: Frame::EndOfLog,
        }),
        empty_store().replay().outcome() is Ok,
        empty_store().get(key) == Ok::<Option<Seq<u8>>, FdbError>(None),
{
}

} // verus!
