use fdb::codec::encode_record;
use fdb::{Fdb, FdbError, KeyValuePair};

fn frame(key: &[u8], value: &[u8]) -> Vec<u8> {
    encode_record(key, value).expect("the record fits a frame")
}

fn empty_store() -> Fdb {
    let mut store = Fdb::open(Vec::new());
    store.load().expect("an empty log loads");
    store
}

/// Closes a store and opens a new one over the log it left behind.
fn reopen(store: Fdb) -> Fdb {
    let mut reopened = Fdb::open(store.log().to_vec());
    reopened.load().expect("Unable to load data");
    reopened
}

#[test]
fn insert_value_and_retrieve_it() {
    let key = "foo";
    let value = "bar";

    let mut store = empty_store();
    store.insert(key.as_bytes(), value.as_bytes()).expect("Impossible to insert foo: bar");
    let mut store = reopen(store);
    let res = store.get(key.as_bytes()).expect("Impossible to get foo.");

    assert_eq!(res, Some(value.as_bytes().to_vec()));
    store.load().expect("Unable to load data");
}

#[test]
fn retrieve_not_inserted_value() {
    let store = empty_store();
    let error = store.get("undefined_key".as_bytes());

    assert_eq!(error, Ok(None));
}

#[test]
fn cannot_retrieve_deleted_value() {
    let key = "foo";
    let value = "bar";

    let mut store = empty_store();
    store.insert(key.as_bytes(), value.as_bytes()).expect("Impossible to insert foo: bar");
    let mut store = reopen(store);
    store.delete(key.as_bytes()).expect("Impossible to insert foo: bar");
    let store = reopen(store);

    let error = store.get(key.as_bytes());

    assert_eq!(error, Ok(None));
}

#[test]
fn open_reads_nothing() {
    let store = Fdb::open(frame(b"foo", b"bar"));
    assert_eq!(store.index.len(), 0);
    assert_eq!(store.get(b"foo"), Ok(None));
    assert_eq!(store.log(), &frame(b"foo", b"bar")[..]);
}

#[test]
fn empty_log_loads_to_an_empty_index() {
    let mut store = Fdb::open(Vec::new());
    assert_eq!(store.load(), Ok(()));
    assert_eq!(store.index.len(), 0);
    assert_eq!(store.get(b""), Ok(None));
    assert_eq!(store.get(b"foo"), Ok(None));
    assert_eq!(store.log(), &[] as &[u8]);
}

#[test]
fn insert_then_get_round_trips() {
    let mut store = empty_store();
    assert_eq!(store.insert(b"key", b"value"), Ok(()));
    assert_eq!(store.get(b"key"), Ok(Some(b"value".to_vec())));
    assert_eq!(store.insert(&[0, 1, 255], &[255, 0]), Ok(()));
    assert_eq!(store.get(&[0, 1, 255]), Ok(Some(vec![255, 0])));
    assert_eq!(store.insert(b"", b"empty key"), Ok(()));
    assert_eq!(store.get(b""), Ok(Some(b"empty key".to_vec())));
    assert_eq!(store.get(b"key"), Ok(Some(b"value".to_vec())));
}

#[test]
fn insert_of_an_empty_value_reads_as_not_found() {
    let mut store = empty_store();
    assert_eq!(store.insert(b"key", b""), Ok(()));
    assert_eq!(store.get(b"key"), Ok(None));
    assert!(store.index.contains_key(b"key"));
}

#[test]
fn delete_leaves_a_tombstone_in_the_index() {
    let mut store = empty_store();
    store.insert(b"foo", b"bar").unwrap();
    assert_eq!(store.delete(b"foo"), Ok(()));
    assert_eq!(store.get(b"foo"), Ok(None));
    assert!(store.index.contains_key(b"foo"));
    assert_eq!(store.index.get(b"foo"), Some(18));
    assert_eq!(store.get_at(18), Ok(KeyValuePair { key: b"foo".to_vec(), value: Vec::new() }));
}

#[test]
fn delete_of_a_key_never_written_appends_a_tombstone() {
    let mut store = empty_store();
    assert_eq!(store.delete(b"ghost"), Ok(()));
    assert_eq!(store.get(b"ghost"), Ok(None));
    assert_eq!(store.index.get(b"ghost"), Some(0));
    assert_eq!(store.log(), &frame(b"ghost", b"")[..]);
}

#[test]
fn last_write_wins() {
    let mut store = empty_store();
    store.insert(b"foo", b"one").unwrap();
    store.insert(b"foo", b"two").unwrap();
    assert_eq!(store.get(b"foo"), Ok(Some(b"two".to_vec())));
    assert_eq!(store.index.len(), 1);
    assert_eq!(store.index.get(b"foo"), Some(18));
}

#[test]
fn update_is_insert() {
    let mut store = empty_store();
    assert_eq!(store.update(b"missing", b"created"), Ok(()));
    assert_eq!(store.get(b"missing"), Ok(Some(b"created".to_vec())));
    assert_eq!(store.update(b"missing", b"changed"), Ok(()));
    assert_eq!(store.get(b"missing"), Ok(Some(b"changed".to_vec())));

    let mut other = empty_store();
    other.insert(b"missing", b"created").unwrap();
    other.insert(b"missing", b"changed").unwrap();
    assert_eq!(store.log(), other.log());
}

#[test]
fn foo_bar_baz_scenario() {
    let mut store = empty_store();
    store.insert(b"foo", b"bar").unwrap();
    assert_eq!(store.get(b"foo"), Ok(Some(b"bar".to_vec())));
    store.delete(b"foo").unwrap();
    assert_eq!(store.get(b"foo"), Ok(None));
    store.insert(b"foo", b"baz").unwrap();
    assert_eq!(store.get(b"foo"), Ok(Some(b"baz".to_vec())));
}

#[test]
fn log_only_grows_by_whole_frames() {
    let mut store = empty_store();
    store.insert(b"foo", b"bar").unwrap();
    store.delete(b"foo").unwrap();
    store.insert(b"foo", b"baz").unwrap();
    let mut expected = frame(b"foo", b"bar");
    expected.extend_from_slice(&frame(b"foo", b""));
    expected.extend_from_slice(&frame(b"foo", b"baz"));
    assert_eq!(store.log(), &expected[..]);
    assert_eq!(store.index.get(b"foo"), Some(18 + 15));
}

#[test]
fn insert_but_ignore_index_returns_where_the_frame_starts() {
    let mut store = empty_store();
    assert_eq!(store.insert_but_ignore_index(b"foo", b"bar"), Ok(0));
    assert_eq!(store.insert_but_ignore_index(b"k", b"v"), Ok(18));
    assert_eq!(store.insert_but_ignore_index(b"", b""), Ok(32));
    assert_eq!(store.log().len(), 44);
    assert_eq!(store.index.len(), 0);
    assert_eq!(store.get(b"foo"), Ok(None));
    assert_eq!(store.get_at(18), Ok(KeyValuePair { key: b"k".to_vec(), value: b"v".to_vec() }));
}

#[test]
fn insert_appends_after_whatever_the_log_holds() {
    let mut store = Fdb::open(vec![1, 2, 3, 4, 5]);
    store.insert(b"foo", b"bar").unwrap();
    assert_eq!(store.index.get(b"foo"), Some(5));
    assert_eq!(store.get(b"foo"), Ok(Some(b"bar".to_vec())));
}

#[test]
fn replay_rebuilds_the_index_of_the_writes() {
    let mut store = empty_store();
    let keys: Vec<Vec<u8>> = (0..40u8).map(|n| vec![b'k', n % 7, n % 3]).collect();
    for (n, key) in keys.iter().enumerate() {
        let value = vec![n as u8; n % 5];
        store.insert(key, &value).unwrap();
    }
    let reopened = reopen(Fdb::open(store.log().to_vec()));
    assert_eq!(reopened.index.len(), store.index.len());
    for key in keys.iter() {
        assert!(store.index.contains_key(key));
        assert_eq!(reopened.index.get(key), store.index.get(key));
        assert_eq!(reopened.get(key), store.get(key));
    }
}

#[test]
fn load_twice_gives_the_same_index() {
    let mut log = frame(b"a", b"1");
    log.extend_from_slice(&frame(b"b", b"2"));
    log.extend_from_slice(&frame(b"a", b"3"));
    let mut store = Fdb::open(log);
    assert_eq!(store.load(), Ok(()));
    assert_eq!(store.index.get(b"a"), Some(28));
    assert_eq!(store.index.get(b"b"), Some(14));
    assert_eq!(store.load(), Ok(()));
    assert_eq!(store.index.len(), 2);
    assert_eq!(store.index.get(b"a"), Some(28));
    assert_eq!(store.index.get(b"b"), Some(14));
}

#[test]
fn load_indexes_tombstones() {
    let mut log = frame(b"a", b"1");
    log.extend_from_slice(&frame(b"a", b""));
    let mut store = Fdb::open(log);
    assert_eq!(store.load(), Ok(()));
    assert_eq!(store.index.get(b"a"), Some(14));
    assert_eq!(store.get(b"a"), Ok(None));
}

#[test]
fn load_takes_a_truncated_tail_for_the_end() {
    let mut log = frame(b"a", b"1");
    let tail = frame(b"b", b"2");
    for cut in 0..tail.len() {
        let mut cut_log = log.clone();
        cut_log.extend_from_slice(&tail[..cut]);
        let mut store = Fdb::open(cut_log);
        assert_eq!(store.load(), Ok(()));
        assert_eq!(store.index.len(), 1);
        assert_eq!(store.get(b"a"), Ok(Some(b"1".to_vec())));
        assert_eq!(store.get(b"b"), Ok(None));
    }
    log.extend_from_slice(&tail);
    let mut store = Fdb::open(log);
    assert_eq!(store.load(), Ok(()));
    assert_eq!(store.get(b"b"), Ok(Some(b"2".to_vec())));
}

#[test]
fn load_fails_on_a_corrupt_record() {
    let mut log = frame(b"a", b"1");
    let damaged = log.len() + 12;
    log.extend_from_slice(&frame(b"foo", b"bar"));
    log.extend_from_slice(&frame(b"c", b"3"));
    log[damaged] ^= 0x01;
    let mut store = Fdb::open(log);
    match store.load() {
        Err(FdbError::Corruption { stored, computed }) => {
            assert_eq!(stored, 0x9ef6_1f95);
            assert_ne!(computed, stored);
        }
        other => panic!("{:?}", other),
    }
    // The records before the corrupt one were indexed, those after were not.
    assert_eq!(store.index.get(b"a"), Some(0));
    assert_eq!(store.index.get(b"foo"), None);
    assert_eq!(store.index.get(b"c"), None);
}

#[test]
fn get_reports_a_record_corrupted_after_it_was_indexed() {
    let mut log = frame(b"foo", b"bar");
    log[15] ^= 0x80;
    let mut store = Fdb::open(log);
    store.index.insert(b"foo".to_vec(), 0);
    match store.get(b"foo") {
        Err(FdbError::Corruption { stored, computed }) => {
            assert_eq!(stored, 0x9ef6_1f95);
            assert_ne!(computed, stored);
        }
        other => panic!("{:?}", other),
    }
}

#[test]
fn get_reports_an_offset_that_holds_no_record() {
    let mut store = Fdb::open(frame(b"foo", b"bar"));
    store.index.insert(b"far".to_vec(), 18);
    store.index.insert(b"farther".to_vec(), u64::MAX);
    store.index.insert(b"inside".to_vec(), 10);
    assert_eq!(store.get(b"far"), Err(FdbError::UnexpectedEof));
    assert_eq!(store.get(b"farther"), Err(FdbError::UnexpectedEof));
    assert_eq!(store.get(b"inside"), Err(FdbError::UnexpectedEof));
    assert_eq!(store.get_at(18), Err(FdbError::UnexpectedEof));
}

#[test]
fn get_does_not_compare_the_record_key() {
    let mut store = Fdb::open(frame(b"foo", b"bar"));
    store.index.insert(b"alias".to_vec(), 0);
    assert_eq!(store.get(b"alias"), Ok(Some(b"bar".to_vec())));
}

#[test]
fn load_overrides_the_index_it_starts_from() {
    let mut log = frame(b"a", b"1");
    log.extend_from_slice(&frame(b"b", b"2"));
    let mut store = Fdb::open(log);
    store.index.insert(b"a".to_vec(), 14);
    store.index.insert(b"elsewhere".to_vec(), 0);
    assert_eq!(store.load(), Ok(()));
    assert_eq!(store.index.get(b"a"), Some(0));
    assert_eq!(store.index.get(b"b"), Some(14));
    assert_eq!(store.index.get(b"elsewhere"), Some(0));
    assert_eq!(store.index.len(), 3);
}

#[test]
fn two_stores_are_independent() {
    let mut one = empty_store();
    let mut two = empty_store();
    one.insert(b"foo", b"one").unwrap();
    two.insert(b"foo", b"two").unwrap();
    two.insert(b"bar", b"two").unwrap();
    assert_eq!(one.get(b"foo"), Ok(Some(b"one".to_vec())));
    assert_eq!(one.get(b"bar"), Ok(None));
    assert_eq!(two.get(b"foo"), Ok(Some(b"two".to_vec())));
    assert_eq!(one.index().len(), 1);
    assert_eq!(two.index().len(), 2);
}

#[test]
fn a_write_leaves_other_keys_as_they_were() {
    let mut store = empty_store();
    store.insert(b"a", b"1").unwrap();
    store.insert(b"b", b"2").unwrap();
    store.delete(b"c").unwrap();
    store.insert(b"b", b"3").unwrap();
    assert_eq!(store.get(b"a"), Ok(Some(b"1".to_vec())));
    assert_eq!(store.get(b"b"), Ok(Some(b"3".to_vec())));
    assert_eq!(store.get(b"c"), Ok(None));
    assert_eq!(store.index.get(b"a"), Some(0));
}
