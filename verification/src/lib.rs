//! A key/value cache with two retention policies, unbounded and
//! least-recently-used, with hit/miss statistics and binary snapshots.
//!
//! Keys are `u64`, values are `String`. Every operation that changes a cache
//! takes `&mut self`; sharing a cache between threads is left to the caller.

use vstd::prelude::*;

use crate::lru::LRU;
use crate::snapshot::{written, SnapshotError};
use crate::unbounded::Unbounded;

pub mod lru;
pub mod snapshot;
pub mod store;
pub mod unbounded;

verus! {

/// Hit and miss counters of one cache.
pub struct Statistics {
    hits: usize,
    misses: usize,
}

/// The successor of a counter, which starts again at zero after `usize::MAX`.
pub open spec fn bumped(count: usize) -> usize {
    if count == usize::MAX {
        0
    } else {
        (count + 1) as usize
    }
}

impl Statistics {
    /// The count of hits, for contracts.
    pub closed spec fn spec_hits(&self) -> usize {
        self.hits
    }

    /// The count of misses, for contracts.
    pub closed spec fn spec_misses(&self) -> usize {
        self.misses
    }

    /// Both counters at zero.
    pub fn new() -> (stats: Self)
        ensures
            stats.hits() == 0,
            stats.misses() == 0,
    {
        Statistics { hits: 0, misses: 0 }
    }

    /// The number of hits counted.
    #[verifier::when_used_as_spec(spec_hits)]
    pub fn hits(&self) -> (count: usize)
        ensures
            count == self.hits(),
    {
        self.hits
    }

    /// The number of misses counted.
    #[verifier::when_used_as_spec(spec_misses)]
    pub fn misses(&self) -> (count: usize)
        ensures
            count == self.misses(),
    {
        self.misses
    }

    /// Counts one hit.
    pub fn add_hit(&mut self)
        ensures
            final(self).hits() == bumped(old(self).hits()),
            final(self).misses() == old(self).misses(),
    {
        self.hits = self.hits.wrapping_add(1);
    }

    /// Counts one miss.
    pub fn add_miss(&mut self)
        ensures
            final(self).misses() == bumped(old(self).misses()),
            final(self).hits() == old(self).hits(),
    {
        self.misses = self.misses.wrapping_add(1);
    }
}

/// One handle over the policies: a bounded cache, an unbounded one, or no
/// cache at all. With no cache nothing is kept and every lookup is empty.
pub enum Cache {
    LRU(LRU),
    Unbounded(Unbounded),
    Absent,
}

impl View for Cache {
    type V = Map<u64, Seq<char>>;

    /// The entries: each key with the characters of its value.
    open spec fn view(&self) -> Map<u64, Seq<char>> {
        match self {
            Cache::LRU(cache) => cache@.entries,
            Cache::Unbounded(cache) => cache@,
            Cache::Absent => Map::empty(),
        }
    }
}

impl Cache {
    /// The cache that the handle stands for is well formed.
    pub open spec fn wf(&self) -> bool {
        match self {
            Cache::LRU(cache) => cache.wf(),
            Cache::Unbounded(cache) => cache.wf(),
            Cache::Absent => true,
        }
    }

    /// The count of hits, for contracts: zero with no cache.
    pub open spec fn spec_hits(&self) -> usize {
        match self {
            Cache::LRU(cache) => cache.hits(),
            Cache::Unbounded(cache) => cache.hits(),
            Cache::Absent => 0,
        }
    }

    /// The count of misses, for contracts: zero with no cache.
    pub open spec fn spec_misses(&self) -> usize {
        match self {
            Cache::LRU(cache) => cache.misses(),
            Cache::Unbounded(cache) => cache.misses(),
            Cache::Absent => 0,
        }
    }

    /// A handle on a new bounded cache.
    pub fn new_lru(capacity: usize) -> (cache: Self)
        ensures
            cache.wf(),
            cache matches Cache::LRU(inner) && inner@.entries == Map::<u64, Seq<char>>::empty()
                && inner@.order == Seq::<u64>::empty() && inner@.capacity == capacity,
            cache.hits() == 0,
            cache.misses() == 0,
    {
        Cache::LRU(LRU::new(capacity))
    }

    /// A handle on a new unbounded cache.
    pub fn new_unbounded() -> (cache: Self)
        ensures
            cache.wf(),
            cache matches Cache::Unbounded(inner) && inner@ == Map::<u64, Seq<char>>::empty(),
            cache.hits() == 0,
            cache.misses() == 0,
    {
        Cache::Unbounded(Unbounded::new())
    }

    /// Whether the handle stands for no cache.
    pub fn is_none(&self) -> (none: bool)
        ensures
            none == (self is Absent),
    {
        match self {
            Cache::Absent => true,
            _ => false,
        }
    }

    /// Whether the handle stands for a cache.
    pub fn is_some(&self) -> (some: bool)
        ensures
            some == !(self is Absent),
    {
        match self {
            Cache::Absent => false,
            _ => true,
        }
    }

    /// Inserts into the cache, as its policy does it.
    pub fn insert(&mut self, key: u64, value: String)
        requires
            old(self).wf(),
        ensures
            final(self).wf(),
            match (*old(self), *final(self)) {
                (Cache::LRU(before), Cache::LRU(after)) => after@ == before@.inserted(key, value@)
                    && before.same_counts(&after),
                (Cache::Unbounded(before), Cache::Unbounded(after)) => after@ == before@.insert(
                    key,
                    value@,
                ) && before.same_counts(&after),
                (Cache::Absent, Cache::Absent) => true,
                _ => false,
            },
    {
        match self {
            Cache::LRU(cache) => cache.insert(key, value),
            Cache::Unbounded(cache) => cache.insert(key, value),
            Cache::Absent => {},
        }
    }

    /// Looks `key` up, as the cache's policy does it.
    pub fn get(&mut self, key: &u64) -> (found: Option<String>)
        requires
            old(self).wf(),
        ensures
            final(self).wf(),
            match (*old(self), *final(self)) {
                (Cache::LRU(before), Cache::LRU(after)) => before.got(&after, *key, found),
                (Cache::Unbounded(before), Cache::Unbounded(after)) => before.got(
                    &after,
                    *key,
                    found,
                ),
                (Cache::Absent, Cache::Absent) => found is None,
                _ => false,
            },
    {
        match self {
            Cache::LRU(cache) => cache.get(key),
            Cache::Unbounded(cache) => cache.get(key),
            Cache::Absent => None,
        }
    }

    /// Takes `key` out and hands back the value it had, if any.
    pub fn remove(&mut self, key: &u64) -> (taken: Option<String>)
        requires
            old(self).wf(),
        ensures
            final(self).wf(),
            match (*old(self), *final(self)) {
                (Cache::LRU(before), Cache::LRU(after)) => after@ == before@.removed(*key)
                    && before.same_counts(&after),
                (Cache::Unbounded(before), Cache::Unbounded(after)) => after@ == before@.remove(
                    *key,
                ) && before.same_counts(&after),
                (Cache::Absent, Cache::Absent) => true,
                _ => false,
            },
            match taken {
                Some(value) => old(self)@.contains_key(*key) && value@ == old(self)@[*key],
                None => !old(self)@.contains_key(*key),
            },
    {
        match self {
            Cache::LRU(cache) => cache.remove(key),
            Cache::Unbounded(cache) => cache.remove(key),
            Cache::Absent => None,
        }
    }

    /// Takes every entry out. The policy, the capacity and the counters stay.
    pub fn clear(&mut self)
        ensures
            final(self).wf(),
            final(self)@ == Map::<u64, Seq<char>>::empty(),
            final(self).hits() == old(self).hits(),
            final(self).misses() == old(self).misses(),
            match (*old(self), *final(self)) {
                (Cache::LRU(before), Cache::LRU(after)) => after@.order == Seq::<u64>::empty()
                    && after@.capacity == before@.capacity,
                (Cache::Unbounded(_), Cache::Unbounded(_)) => true,
                (Cache::Absent, Cache::Absent) => true,
                _ => false,
            },
    {
        match self {
            Cache::LRU(cache) => cache.clear(),
            Cache::Unbounded(cache) => cache.clear(),
            Cache::Absent => {},
        }
    }

    /// The number of entries.
    pub fn len(&self) -> (count: usize)
        requires
            self.wf(),
        ensures
            count == self@.len(),
            self matches Cache::LRU(cache) ==> count <= cache@.capacity,
    {
        match self {
            Cache::LRU(cache) => cache.len(),
            Cache::Unbounded(cache) => cache.len(),
            Cache::Absent => 0,
        }
    }

    /// Whether there is no entry.
    pub fn is_empty(&self) -> (empty: bool)
        requires
            self.wf(),
        ensures
            empty <==> self@.len() == 0,
    {
        match self {
            Cache::LRU(cache) => cache.is_empty(),
            Cache::Unbounded(cache) => cache.is_empty(),
            Cache::Absent => true,
        }
    }

    /// The number of lookups that found their key.
    #[verifier::when_used_as_spec(spec_hits)]
    pub fn hits(&self) -> (count: usize)
        ensures
            count == self.hits(),
    {
        match self {
            Cache::LRU(cache) => cache.hits(),
            Cache::Unbounded(cache) => cache.hits(),
            Cache::Absent => 0,
        }
    }

    /// The number of lookups that did not find their key.
    #[verifier::when_used_as_spec(spec_misses)]
    pub fn misses(&self) -> (count: usize)
        ensures
            count == self.misses(),
    {
        match self {
            Cache::LRU(cache) => cache.misses(),
            Cache::Unbounded(cache) => cache.misses(),
            Cache::Absent => 0,
        }
    }

    /// The snapshot of the cache, for the caller to store; with no cache
    /// there is none, and nothing is to be stored.
    pub fn write(&self) -> (res: Result<Option<Vec<u8>>, SnapshotError>)
        ensures
            match res {
                Ok(Some(bytes)) => !(self is Absent) && written(
                    self@,
                    Ok::<Vec<u8>, SnapshotError>(bytes),
                ),
                Ok(None) => self is Absent,
                Err(e) => !(self is Absent) && written(self@, Err::<Vec<u8>, SnapshotError>(e)),
            },
    {
        match self {
            Cache::LRU(cache) => match cache.write() {
                Ok(bytes) => Ok(Some(bytes)),
                Err(e) => Err(e),
            },
            Cache::Unbounded(cache) => match cache.write() {
                Ok(bytes) => Ok(Some(bytes)),
                Err(e) => Err(e),
            },
            Cache::Absent => Ok(None),
        }
    }

    /// Merges a snapshot into the cache, as its policy does it. With no
    /// cache the bytes are not looked at.
    pub fn read(&mut self, bytes: &[u8]) -> (res: Result<(), SnapshotError>)
        requires
            old(self).wf(),
        ensures
            final(self).wf(),
            match (*old(self), *final(self)) {
                (Cache::LRU(before), Cache::LRU(after)) => before.loaded(&after, bytes@, res),
                (Cache::Unbounded(before), Cache::Unbounded(after)) => before.loaded(
                    &after,
                    bytes@,
                    res,
                ),
                (Cache::Absent, Cache::Absent) => res is Ok,
                _ => false,
            },
    {
        match self {
            Cache::LRU(cache) => cache.read(bytes),
            Cache::Unbounded(cache) => cache.read(bytes),
            Cache::Absent => Ok(()),
        }
    }
}

} // verus!
