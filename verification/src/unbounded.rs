//! The cache that keeps every entry.

use crate::snapshot::{
    decode, decoding, encode, encoded, keys, lemma_merged_dom, lemma_merged_lists, merged,
    reads_back, snapshot_bytes, written, EntryView, SnapshotError,
};
use crate::store::{
    held, lists, store_clear, store_entries, store_get, store_insert, store_is_empty, store_len,
    store_new, store_remove,
};
use crate::{bumped, Statistics};
use dashmap::DashMap;
use vstd::prelude::*;

verus! {

/// A cache without a bound: an entry stays until it is removed.
pub struct Unbounded {
    map: DashMap<u64, String>,
    statistics: Statistics,
}

impl View for Unbounded {
    type V = Map<u64, Seq<char>>;

    /// The entries: each key with the characters of its value.
    closed spec fn view(&self) -> Map<u64, Seq<char>> {
        held(self.map)
    }
}

impl Unbounded {
    /// The cache holds finitely many entries.
    pub closed spec fn wf(&self) -> bool {
        held(self.map).dom().finite()
    }

    /// The count of hits, for contracts.
    pub closed spec fn spec_hits(&self) -> usize {
        self.statistics.hits()
    }

    /// The count of misses, for contracts.
    pub closed spec fn spec_misses(&self) -> usize {
        self.statistics.misses()
    }

    /// Whether `after` differs from `self` in its entries at most.
    pub open spec fn same_counts(&self, after: &Self) -> bool {
        after.hits() == self.hits() && after.misses() == self.misses()
    }

    /// What a lookup of `key` does: `found` is the value of `key`, the
    /// entries stay, and the lookup is counted as a hit or as a miss.
    pub open spec fn got(&self, after: &Self, key: u64, found: Option<String>) -> bool {
        &&& after@ == self@
        &&& match found {
            Some(value) => {
                &&& self@.contains_key(key)
                &&& value@ == self@[key]
                &&& after.hits() == bumped(self.hits())
                &&& after.misses() == self.misses()
            },
            None => {
                &&& !self@.contains_key(key)
                &&& after.hits() == self.hits()
                &&& after.misses() == bumped(self.misses())
            },
        }
    }

    /// What reading `bytes` does: their entries are merged in, or the cache
    /// stays as it is and `res` says why. Bytes that were written for a list
    /// of entries hold that list.
    pub open spec fn loaded(
        &self,
        after: &Self,
        bytes: Seq<u8>,
        res: Result<(), SnapshotError>,
    ) -> bool {
        &&& match decoding(bytes) {
            Ok(entries) => res is Ok && after@ == merged(self@, entries),
            Err(e) => res == Err::<(), SnapshotError>(e) && after@ == self@,
        }
        &&& bytes.len() > 0 ==> reads_back(bytes)
        &&& self.same_counts(after)
    }

    /// An empty cache, with both counters at zero.
    pub fn new() -> (cache: Self)
        ensures
            cache.wf(),
            cache@ == Map::<u64, Seq<char>>::empty(),
            cache.hits() == 0,
            cache.misses() == 0,
    {
        Unbounded { map: store_new(), statistics: Statistics::new() }
    }

    /// Binds `key` to `value`, in place of the value it had.
    pub fn insert(&mut self, key: u64, value: String)
        requires
            old(self).wf(),
        ensures
            final(self).wf(),
            final(self)@ == old(self)@.insert(key, value@),
            old(self).same_counts(final(self)),
    {
        let _ = store_insert(&mut self.map, key, value);
    }

    /// A copy of the value of `key`, counted as a hit; or nothing, counted as
    /// a miss.
    pub fn get(&mut self, key: &u64) -> (found: Option<String>)
        requires
            old(self).wf(),
        ensures
            final(self).wf(),
            old(self).got(final(self), *key, found),
    {
        match store_get(&self.map, key) {
            Some(value) => {
                self.statistics.add_hit();
                Some(value)
            },
            None => {
                self.statistics.add_miss();
                None
            },
        }
    }

    /// Takes `key` out and hands back the value it had, if any.
    pub fn remove(&mut self, key: &u64) -> (taken: Option<String>)
        requires
            old(self).wf(),
        ensures
            final(self).wf(),
            final(self)@ == old(self)@.remove(*key),
            old(self).same_counts(final(self)),
            match taken {
                Some(value) => old(self)@.contains_key(*key) && value@ == old(self)@[*key],
                None => !old(self)@.contains_key(*key),
            },
    {
        match store_remove(&mut self.map, key) {
            Some(pair) => Some(pair.1),
            None => None,
        }
    }

    /// Takes every entry out. The counters stay.
    pub fn clear(&mut self)
        ensures
            final(self).wf(),
            final(self)@ == Map::<u64, Seq<char>>::empty(),
            old(self).same_counts(final(self)),
    {
        store_clear(&mut self.map);
    }

    /// The number of entries.
    pub fn len(&self) -> (count: usize)
        requires
            self.wf(),
        ensures
            count == self@.len(),
    {
        store_len(&self.map)
    }

    /// Whether the cache holds no entry.
    pub fn is_empty(&self) -> (empty: bool)
        requires
            self.wf(),
        ensures
            empty <==> self@.len() == 0,
    {
        let empty = store_is_empty(&self.map);
        proof {
            if self@.len() == 0 {
                assert(self@.dom() =~= Set::<u64>::empty());
                assert(self@ =~= Map::<u64, Seq<char>>::empty());
            }
        }
        empty
    }

    /// The number of lookups that found their key.
    #[verifier::when_used_as_spec(spec_hits)]
    pub fn hits(&self) -> (count: usize)
        ensures
            count == self.hits(),
    {
        self.statistics.hits()
    }

    /// The number of lookups that did not find their key.
    #[verifier::when_used_as_spec(spec_misses)]
    pub fn misses(&self) -> (count: usize)
        ensures
            count == self.misses(),
    {
        self.statistics.misses()
    }

    /// Every entry once, in an order that is left open.
    pub fn entries(&self) -> (entries: Vec<(u64, String)>)
        ensures
            lists(entries.deep_view(), self@),
    {
        store_entries(&self.map)
    }

    /// The snapshot of the cache: its entries, encoded. The cache stays as it
    /// is.
    pub fn write(&self) -> (res: Result<Vec<u8>, SnapshotError>)
        ensures
            written(self@, res),
    {
        let entries = store_entries(&self.map);
        let res = encode(&entries);
        assert(encoded(entries.deep_view(), res));
        res
    }

    /// Inserts each entry of a list in turn.
    pub fn absorb(&mut self, entries: &Vec<(u64, String)>)
        requires
            old(self).wf(),
        ensures
            final(self).wf(),
            final(self)@ == merged(old(self)@, entries.deep_view()),
            old(self).same_counts(final(self)),
    {
        let mut i: usize = 0;
        while i < entries.len()
            invariant
                0 <= i <= entries.len(),
                self.wf(),
                self@ == merged(old(self)@, entries.deep_view().take(i as int)),
                old(self).same_counts(self),
            decreases entries.len() - i,
        {
            let key = entries[i].0;
            let value = entries[i].1.clone();
            proof {
                let before = entries.deep_view().take(i as int);
                let after = entries.deep_view().take(i + 1);
                assert(after.drop_last() =~= before);
                assert(after.last() == (key, value@));
            }
            self.insert(key, value);
            i = i + 1;
        }
        proof {
            assert(entries.deep_view().take(i as int) =~= entries.deep_view());
        }
    }

    /// Merges a snapshot into the cache: each entry that the bytes hold is
    /// inserted, in their order. Bytes that hold no list of entries change
    /// nothing.
    pub fn read(&mut self, bytes: &[u8]) -> (res: Result<(), SnapshotError>)
        requires
            old(self).wf(),
        ensures
            final(self).wf(),
            old(self).loaded(final(self), bytes@, res),
    {
        match decode(bytes) {
            Ok(entries) => {
                self.absorb(&entries);
                Ok(())
            },
            Err(e) => Err(e),
        }
    }
}

impl Default for Unbounded {
    fn default() -> (cache: Self)
        ensures
            cache.wf(),
            cache@ == Map::<u64, Seq<char>>::empty(),
            cache.hits() == 0,
            cache.misses() == 0,
    {
        Unbounded::new()
    }
}

/// After any run of inserts into an empty cache, the cache holds as many
/// entries as the run has distinct keys.
pub proof fn law_len_counts_distinct_keys(inserts: Seq<EntryView>)
    ensures
        merged(Map::empty(), inserts).dom() == keys(inserts).to_set(),
        merged(Map::empty(), inserts).dom().finite(),
        merged(Map::empty(), inserts).len() == keys(inserts).to_set().len(),
{
    lemma_merged_dom(Map::empty(), inserts);
    assert(Map::<u64, Seq<char>>::empty().dom().union(keys(inserts).to_set()) =~= keys(
        inserts,
    ).to_set());
}

/// A lookup of a present key finds it and adds one to the hits alone; a
/// lookup of an absent key finds nothing and adds one to the misses alone.
/// This holds short of a counter's last value, after which it starts again.
pub proof fn law_lookup_counts_one(
    before: Unbounded,
    after: Unbounded,
    key: u64,
    found: Option<String>,
)
    requires
        before.got(&after, key, found),
        before.hits() < usize::MAX,
        before.misses() < usize::MAX,
    ensures
        before@.contains_key(key) ==> found is Some && after.hits() == before.hits() + 1
            && after.misses() == before.misses(),
        !before@.contains_key(key) ==> found is None && after.hits() == before.hits()
            && after.misses() == before.misses() + 1,
{
}

/// Inserting a pair a second time changes nothing: the entries, and so
/// their number, stay, and the key has the value.
pub proof fn law_insert_twice(map: Map<u64, Seq<char>>, key: u64, value: Seq<char>)
    ensures
        map.insert(key, value).insert(key, value) == map.insert(key, value),
        map.insert(key, value)[key] == value,
{
    assert(map.insert(key, value).insert(key, value) =~= map.insert(key, value));
}

/// The snapshot that `write` gives for a cache, read into an empty cache,
/// is accepted and leaves that cache with the entries of the first.
pub proof fn law_round_trip(
    source: Unbounded,
    snapshot: Vec<u8>,
    fresh: Unbounded,
    restored: Unbounded,
    res: Result<(), SnapshotError>,
)
    requires
        written(source@, Ok(snapshot)),
        fresh@ == Map::<u64, Seq<char>>::empty(),
        fresh.loaded(&restored, snapshot@, res),
    ensures
        res is Ok,
        restored@ == source@,
{
    let entries = choose|entries: Seq<EntryView>|
        lists(entries, source@) && #[trigger] encoded(entries, Ok(snapshot));
    assert(snapshot_bytes(entries) == Some(snapshot@));
    lemma_merged_lists(source@, entries);
}

} // verus!
