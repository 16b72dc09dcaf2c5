//! The in-memory index: a map from keys to the offset of their latest record.

use crate::bytes::bytes_equal;
use vstd::prelude::*;

verus! {

/// One key of the index with the offset it maps to.
#[derive(Debug)]
struct Entry {
    key: Vec<u8>,
    offset: u64,
}

/// A map from byte-string keys to log offsets, in which every key occurs at
/// most once.
#[derive(Debug)]
pub struct Index {
    entries: Vec<Entry>,
}

/// The map that a sequence of entries stands for: later entries override
/// earlier ones.
spec fn entries_map(entries: Seq<Entry>) -> Map<Seq<u8>, u64>
    decreases entries.len(),
{
    if entries.len() == 0 {
        Map::empty()
    } else {
        entries_map(entries.drop_last()).insert(entries.last().key@, entries.last().offset)
    }
}

/// No key occurs in two entries.
spec fn distinct_keys(entries: Seq<Entry>) -> bool {
    forall|i: int, j: int|
        0 <= i < j < entries.len() ==> (#[trigger] entries[i]).key@ != (#[trigger] entries[j]).key@
}

/// A key that no entry holds is not in the map.
proof fn lemma_absent(entries: Seq<Entry>, key: Seq<u8>)
    requires
        forall|i: int| 0 <= i < entries.len() ==> (#[trigger] entries[i]).key@ != key,
    ensures
        !entries_map(entries).contains_key(key),
    decreases entries.len(),
{
    if entries.len() > 0 {
        lemma_absent(entries.drop_last(), key);
    }
}

/// With distinct keys, each entry's key maps to that entry's offset.
proof fn lemma_present(entries: Seq<Entry>, i: int)
    requires
        distinct_keys(entries),
        0 <= i < entries.len(),
    ensures
        entries_map(entries).contains_key(entries[i].key@),
        entries_map(entries)[entries[i].key@] == entries[i].offset,
    decreases entries.len(),
{
    if i < entries.len() - 1 {
        lemma_present(entries.drop_last(), i);
    }
}

/// With distinct keys, replacing the offset of one entry is an insertion
/// into the map.
proof fn lemma_replace(entries: Seq<Entry>, i: int, entry: Entry)
    requires
        distinct_keys(entries),
        0 <= i < entries.len(),
        entry.key@ == entries[i].key@,
    ensures
        distinct_keys(entries.update(i, entry)),
        entries_map(entries.update(i, entry)) == entries_map(entries).insert(
            entry.key@,
            entry.offset,
        ),
    decreases entries.len(),
{
    let updated = entries.update(i, entry);
    if i == entries.len() - 1 {
        assert(updated.drop_last() =~= entries.drop_last());
        assert(entries_map(updated) =~= entries_map(entries).insert(entry.key@, entry.offset));
    } else {
        lemma_replace(entries.drop_last(), i, entry);
        assert(updated.drop_last() =~= entries.drop_last().update(i, entry));
        assert(entries.last().key@ != entries[i].key@);
        assert(entries_map(updated) =~= entries_map(entries).insert(entry.key@, entry.offset));
    }
}

/// With distinct keys, the map is finite and has one key for each entry.
proof fn lemma_size(entries: Seq<Entry>)
    requires
        distinct_keys(entries),
    ensures
        entries_map(entries).dom().finite(),
        entries_map(entries).dom().len() == entries.len(),
    decreases entries.len(),
{
    if entries.len() > 0 {
        let front = entries.drop_last();
        lemma_size(front);
        assert forall|i: int| 0 <= i < front.len() implies (#[trigger] front[i]).key@
            != entries.last().key@ by {
            assert(front[i] == entries[i]);
        }
        lemma_absent(front, entries.last().key@);
    }
}

impl View for Index {
    type V = Map<Seq<u8>, u64>;

    closed spec fn view(&self) -> Map<Seq<u8>, u64> {
        entries_map(self.entries@)
    }
}

impl Index {
    #[verifier::type_invariant]
    spec fn well_formed(self) -> bool {
        distinct_keys(self.entries@)
    }

    /// The position of the entry that holds `key`, if there is one.
    fn position(&self, key: &[u8]) -> (found: Option<usize>)
        ensures
            found is Some ==> found.unwrap() < self.entries@.len()
                && self.entries@[found.unwrap() as int].key@ == key@,
            found is None ==> forall|i: int|
                0 <= i < self.entries@.len() ==> (#[trigger] self.entries@[i]).key@ != key@,
    {
        let mut i: usize = 0;
        while i < self.entries.len()
            invariant
                0 <= i <= self.entries@.len(),
                forall|j: int| 0 <= j < i ==> (#[trigger] self.entries@[j]).key@ != key@,
            decreases self.entries@.len() - i,
        {
            if bytes_equal(self.entries[i].key.as_slice(), key) {
                return Some(i);
            }
            i += 1;
        }
        None
    }

    /// An index that maps no key.
    pub fn new() -> (index: Index)
        ensures
            index@ == Map::<Seq<u8>, u64>::empty(),
    {
        Index { entries: Vec::new() }
    }

    /// The number of keys in the index.
    pub fn len(&self) -> (n: usize)
        ensures
            self@.dom().finite(),
            n == self@.dom().len(),
    {
        proof {
            use_type_invariant(self);
            lemma_size(self.entries@);
        }
        self.entries.len()
    }

    /// Whether the index maps `key`.
    pub fn contains_key(&self, key: &[u8]) -> (present: bool)
        ensures
            present == self@.contains_key(key@),
    {
        self.get(key).is_some()
    }

    /// The offset that `key` maps to, if the index maps it.
    pub fn get(&self, key: &[u8]) -> (offset: Option<u64>)
        ensures
            offset == self@.get(key@),
    {
        proof {
            use_type_invariant(self);
        }
        match self.position(key) {
            Some(i) => {
                proof {
                    lemma_present(self.entries@, i as int);
                }
                Some(self.entries[i].offset)
            },
            None => {
                proof {
                    lemma_absent(self.entries@, key@);
                }
                None
            },
        }
    }

    /// Maps `key` to `offset`, overwriting any earlier mapping of `key`, and
    /// returns the offset that `key` mapped to before.
    pub fn insert(&mut self, key: Vec<u8>, offset: u64) -> (previous: Option<u64>)
        ensures
            final(self)@ == old(self)@.insert(key@, offset),
            previous == old(self)@.get(key@),
    {
        proof {
            use_type_invariant(&*self);
        }
        let found = self.position(key.as_slice());
        let entry = Entry { key, offset };
        // The entries are taken out while they change, so that the index
        // holds distinct keys at every moment at which it can be seen.
        let mut entries: Vec<Entry> = Vec::new();
        core::mem::swap(&mut self.entries, &mut entries);
        let previous = match found {
            Some(i) => {
                let previous = entries[i].offset;
                proof {
                    lemma_present(entries@, i as int);
                    lemma_replace(entries@, i as int, entry);
                }
                entries.set(i, entry);
                Some(previous)
            },
            None => {
                proof {
                    lemma_absent(entries@, key@);
                    assert(entries@.push(entry).drop_last() =~= entries@);
                }
                entries.push(entry);
                None
            },
        };
        core::mem::swap(&mut self.entries, &mut entries);
        previous
    }
}

} // verus!
