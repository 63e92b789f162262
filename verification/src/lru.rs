//! The cache that keeps a bounded number of entries and gives up the one
//! that was touched longest ago.

use crate::snapshot::{
    decode, decoding, encode, encoded, keys, lemma_merged_lists, merged, reads_back,
    snapshot_bytes, written, EntryView, SnapshotError,
};
use crate::store::{
    held, lists, store_clear, store_entries, store_get, store_insert, store_is_empty, store_len,
    store_new, store_remove,
};
use crate::{bumped, Statistics};
use dashmap::DashMap;
use std::collections::VecDeque;
use vstd::prelude::*;

verus! {

/// The order after a touch of `key`: its earlier place is given up and it
/// stands last.
pub open spec fn promoted(order: Seq<u64>, key: u64) -> Seq<u64> {
    order.remove_value(key).push(key)
}

/// The model of a bounded cache.
pub struct LruView {
    /// Each key with the characters of its value.
    pub entries: Map<u64, Seq<char>>,
    /// The keys from the one touched longest ago to the one touched last.
    pub order: Seq<u64>,
    /// The most entries that the cache keeps.
    pub capacity: nat,
}

impl LruView {
    /// The order holds each key of the entries once, and no more of them
    /// than the capacity allows.
    pub open spec fn wf(self) -> bool {
        &&& self.order.no_duplicates()
        &&& self.order.to_set() == self.entries.dom()
        &&& self.order.len() <= self.capacity
    }

    /// After a lookup that found `key`.
    pub open spec fn touched(self, key: u64) -> LruView {
        LruView { entries: self.entries, order: promoted(self.order, key), capacity: self.capacity }
    }

    /// With the first key of the order given up, where the order is longer
    /// than the capacity.
    pub open spec fn trimmed(self) -> LruView {
        if self.order.len() > self.capacity {
            LruView {
                entries: self.entries.remove(self.order[0]),
                order: self.order.drop_first(),
                capacity: self.capacity,
            }
        } else {
            self
        }
    }

    /// After `key` is bound to `value`: the key is touched, and the entry
    /// touched longest ago leaves if there are now too many.
    pub open spec fn inserted(self, key: u64, value: Seq<char>) -> LruView {
        LruView {
            entries: self.entries.insert(key, value),
            order: promoted(self.order, key),
            capacity: self.capacity,
        }.trimmed()
    }

    /// After `key` is taken out.
    pub open spec fn removed(self, key: u64) -> LruView {
        LruView {
            entries: self.entries.remove(key),
            order: self.order.remove_value(key),
            capacity: self.capacity,
        }
    }

    /// After each entry of a list is inserted in turn.
    pub open spec fn absorbed(self, entries: Seq<EntryView>) -> LruView
        decreases entries.len(),
    {
        if entries.len() == 0 {
            self
        } else {
            self.absorbed(entries.drop_last()).inserted(entries.last().0, entries.last().1)
        }
    }
}

/// Taking a key out of an order without repeats leaves the other keys, each
/// once.
pub proof fn lemma_remove_value(order: Seq<u64>, key: u64)
    requires
        order.no_duplicates(),
    ensures
        order.remove_value(key).no_duplicates(),
        !order.remove_value(key).contains(key),
        order.remove_value(key).to_set() == order.to_set().remove(key),
        order.remove_value(key).len() == order.len() - (if order.contains(key) {
            1int
        } else {
            0int
        }),
        !order.contains(key) ==> order.remove_value(key) == order,
{
    let rest = order.remove_value(key);
    order.index_of_first_ensures(key);
    match order.index_of_first(key) {
        Some(at) => {
            assert(rest == order.remove(at));
            assert forall|x: u64| rest.contains(x) <==> (order.contains(x) && x != key) by {
                if rest.contains(x) {
                    let j = choose|j: int| 0 <= j < rest.len() && rest[j] == x;
                    if j < at {
                        assert(order[j] == x);
                    } else {
                        assert(order[j + 1] == x);
                    }
                }
                if order.contains(x) && x != key {
                    let j = choose|j: int| 0 <= j < order.len() && order[j] == x;
                    if j < at {
                        assert(rest[j] == x);
                    } else {
                        assert(rest[j - 1] == x);
                    }
                }
            }
            assert(rest.to_set() =~= order.to_set().remove(key));
        },
        None => {
            assert(rest.to_set() =~= order.to_set().remove(key));
        },
    }
}

/// A touch leaves an order without repeats so, with the key last.
pub proof fn lemma_promoted(order: Seq<u64>, key: u64)
    requires
        order.no_duplicates(),
    ensures
        promoted(order, key).no_duplicates(),
        promoted(order, key).to_set() == order.to_set().insert(key),
        promoted(order, key).len() == order.len() + (if order.contains(key) {
            0int
        } else {
            1int
        }),
        promoted(order, key).last() == key,
{
    lemma_remove_value(order, key);
    let rest = order.remove_value(key);
    let after = rest.push(key);
    assert forall|x: u64| after.contains(x) <==> (rest.contains(x) || x == key) by {
        if after.contains(x) {
            let j = choose|j: int| 0 <= j < after.len() && after[j] == x;
            if j < rest.len() {
                assert(rest[j] == x);
            }
        }
        if rest.contains(x) {
            let j = choose|j: int| 0 <= j < rest.len() && rest[j] == x;
            assert(after[j] == x);
        }
        if x == key {
            assert(after[rest.len() as int] == x);
        }
    }
    assert(after.to_set() =~= order.to_set().insert(key));
}

/// Without its first key, an order without repeats holds the others, each
/// once.
pub proof fn lemma_drop_first(order: Seq<u64>)
    requires
        order.no_duplicates(),
        order.len() > 0,
    ensures
        order.drop_first().no_duplicates(),
        order.drop_first().to_set() == order.to_set().remove(order[0]),
{
    let rest = order.drop_first();
    assert forall|x: u64| rest.contains(x) <==> (order.contains(x) && x != order[0]) by {
        if rest.contains(x) {
            let j = choose|j: int| 0 <= j < rest.len() && rest[j] == x;
            assert(order[j + 1] == x);
        }
        if order.contains(x) && x != order[0] {
            let j = choose|j: int| 0 <= j < order.len() && order[j] == x;
            assert(rest[j - 1] == x);
        }
    }
    assert(rest.to_set() =~= order.to_set().remove(order[0]));
}

/// Each step of the model keeps it well formed.
pub proof fn lemma_steps_keep_wf(state: LruView, key: u64, value: Seq<char>)
    requires
        state.wf(),
    ensures
        state.entries.contains_key(key) ==> state.touched(key).wf(),
        state.inserted(key, value).wf(),
        state.removed(key).wf(),
{
    lemma_promoted(state.order, key);
    lemma_remove_value(state.order, key);
    let grown = LruView {
        entries: state.entries.insert(key, value),
        order: promoted(state.order, key),
        capacity: state.capacity,
    };
    assert(grown.order.to_set() =~= grown.entries.dom());
    if grown.order.len() > grown.capacity {
        lemma_drop_first(grown.order);
        assert(grown.trimmed().order.to_set() =~= grown.trimmed().entries.dom());
    }
    assert(state.removed(key).order.to_set() =~= state.removed(key).entries.dom());
    if state.entries.contains_key(key) {
        assert(state.order.to_set().contains(key));
        assert(state.touched(key).order.to_set() =~= state.entries.dom());
    }
}

/// The place of the first `key` in `order`, if it is there.
fn position(order: &VecDeque<u64>, key: u64) -> (place: Option<usize>)
    ensures
        match place {
            Some(at) => order@.index_of_first(key) == Some(at as int),
            None => !order@.contains(key),
        },
{
    let mut i: usize = 0;
    while i < order.len()
        invariant
            0 <= i <= order@.len(),
            forall|j: int| 0 <= j < i ==> order@[j] != key,
        decreases order@.len() - i,
    {
        if order[i] == key {
            proof {
                order@.index_of_first_ensures(key);
                assert(order@.contains(key));
            }
            return Some(i);
        }
        i = i + 1;
    }
    None
}

/// Gives up the place of `key` in `order`, if it has one.
fn forget(order: &mut VecDeque<u64>, key: u64)
    ensures
        final(order)@ == old(order)@.remove_value(key),
{
    proof {
        order@.index_of_first_ensures(key);
    }
    match position(order, key) {
        Some(at) => {
            let _ = order.remove(at);
        },
        None => {},
    }
}

/// A cache with a capacity: when an insert brings one entry too many, the
/// entry touched longest ago leaves.
pub struct LRU {
    map: DashMap<u64, String>,
    order: VecDeque<u64>,
    capacity: usize,
    statistics: Statistics,
}

impl View for LRU {
    type V = LruView;

    closed spec fn view(&self) -> LruView {
        LruView { entries: held(self.map), order: self.order@, capacity: self.capacity as nat }
    }
}

impl LRU {
    /// The cache's model is well formed.
    pub open spec fn wf(&self) -> bool {
        self@.wf()
    }

    /// The count of hits, for contracts.
    pub closed spec fn spec_hits(&self) -> usize {
        self.statistics.hits()
    }

    /// The count of misses, for contracts.
    pub closed spec fn spec_misses(&self) -> usize {
        self.statistics.misses()
    }

    /// Whether `after` has the counters of `self`.
    pub open spec fn same_counts(&self, after: &Self) -> bool {
        after.hits() == self.hits() && after.misses() == self.misses()
    }

    /// What a lookup of `key` does: `found` is the value of `key`; a key that
    /// is found is touched and counted as a hit, one that is not is counted
    /// as a miss.
    pub open spec fn got(&self, after: &Self, key: u64, found: Option<String>) -> bool {
        match found {
            Some(value) => {
                &&& self@.entries.contains_key(key)
                &&& value@ == self@.entries[key]
                &&& after@ == self@.touched(key)
                &&& after.hits() == bumped(self.hits())
                &&& after.misses() == self.misses()
            },
            None => {
                &&& !self@.entries.contains_key(key)
                &&& after@ == self@
                &&& after.hits() == self.hits()
                &&& after.misses() == bumped(self.misses())
            },
        }
    }

    /// What reading `bytes` does: their entries are inserted in turn, or the
    /// cache stays as it is and `res` says why. Bytes that were written for a
    /// list of entries hold that list.
    pub open spec fn loaded(
        &self,
        after: &Self,
        bytes: Seq<u8>,
        res: Result<(), SnapshotError>,
    ) -> bool {
        &&& match decoding(bytes) {
            Ok(entries) => res is Ok && after@ == self@.absorbed(entries),
            Err(e) => res == Err::<(), SnapshotError>(e) && after@ == self@,
        }
        &&& bytes.len() > 0 ==> reads_back(bytes)
        &&& self.same_counts(after)
    }

    /// An empty cache that keeps at most `capacity` entries, with both
    /// counters at zero.
    pub fn new(capacity: usize) -> (cache: Self)
        ensures
            cache.wf(),
            cache@.entries == Map::<u64, Seq<char>>::empty(),
            cache@.order == Seq::<u64>::empty(),
            cache@.capacity == capacity,
            cache.hits() == 0,
            cache.misses() == 0,
    {
        let cache = LRU {
            map: store_new(),
            order: VecDeque::new(),
            capacity,
            statistics: Statistics::new(),
        };
        assert(cache@.order.to_set() =~= cache@.entries.dom());
        cache
    }

    /// Gives up the entry touched longest ago if there is one too many.
    fn evict_if_needed(&mut self)
        ensures
            final(self)@ == old(self)@.trimmed(),
            old(self).same_counts(final(self)),
    {
        let oldest_key = if self.order.len() > self.capacity {
            self.order.pop_front()
        } else {
            None
        };
        if let Some(key) = oldest_key {
            let _ = store_remove(&mut self.map, &key);
        }
        assert(self@.order =~= old(self)@.trimmed().order);
    }

    /// Moves `key` to the end of the order.
    fn update_order(&mut self, key: u64)
        ensures
            final(self)@ == old(self)@.touched(key),
            old(self).same_counts(final(self)),
    {
        forget(&mut self.order, key);
        self.order.push_back(key);
    }

    /// Binds `key` to `value` and touches it; the entry touched longest ago
    /// leaves if there is then one too many.
    pub fn insert(&mut self, key: u64, value: String)
        requires
            old(self).wf(),
        ensures
            final(self).wf(),
            final(self)@ == old(self)@.inserted(key, value@),
            old(self).same_counts(final(self)),
    {
        proof {
            lemma_steps_keep_wf(self@, key, value@);
        }
        let _ = store_insert(&mut self.map, key, value);
        self.update_order(key);
        self.evict_if_needed();
    }

    /// A copy of the value of `key`, which is touched and counted as a hit;
    /// or nothing, counted as a miss, with the order as it was.
    pub fn get(&mut self, key: &u64) -> (found: Option<String>)
        requires
            old(self).wf(),
        ensures
            final(self).wf(),
            old(self).got(final(self), *key, found),
    {
        proof {
            lemma_steps_keep_wf(self@, *key, Seq::empty());
        }
        match store_get(&self.map, key) {
            Some(value) => {
                self.update_order(*key);
                self.statistics.add_hit();
                Some(value)
            },
            None => {
                self.statistics.add_miss();
                None
            },
        }
    }

    /// Takes `key` out of the entries and of the order, and hands back the
    /// value it had, if any.
    pub fn remove(&mut self, key: &u64) -> (taken: Option<String>)
        requires
            old(self).wf(),
        ensures
            final(self).wf(),
            final(self)@ == old(self)@.removed(*key),
            old(self).same_counts(final(self)),
            match taken {
                Some(value) => old(self)@.entries.contains_key(*key) && value@ == old(
                    self,
                )@.entries[*key],
                None => !old(self)@.entries.contains_key(*key),
            },
    {
        proof {
            lemma_steps_keep_wf(self@, *key, Seq::empty());
            lemma_remove_value(self@.order, *key);
        }
        match store_remove(&mut self.map, key) {
            Some(pair) => {
                forget(&mut self.order, *key);
                Some(pair.1)
            },
            None => {
                proof {
                    assert(!self@.order.to_set().contains(*key));
                    assert(self@.entries =~= old(self)@.entries);
                }
                None
            },
        }
    }

    /// Takes every entry out. The capacity and the counters stay.
    pub fn clear(&mut self)
        ensures
            final(self).wf(),
            final(self)@.entries == Map::<u64, Seq<char>>::empty(),
            final(self)@.order == Seq::<u64>::empty(),
            final(self)@.capacity == old(self)@.capacity,
            old(self).same_counts(final(self)),
    {
        store_clear(&mut self.map);
        self.order.clear();
        assert(self@.order.to_set() =~= self@.entries.dom());
    }

    /// The number of entries, which the capacity bounds.
    pub fn len(&self) -> (count: usize)
        requires
            self.wf(),
        ensures
            count == self@.entries.len(),
            count == self@.order.len(),
            count <= self@.capacity,
    {
        proof {
            self@.order.unique_seq_to_set();
        }
        store_len(&self.map)
    }

    /// Whether the cache holds no entry.
    pub fn is_empty(&self) -> (empty: bool)
        requires
            self.wf(),
        ensures
            empty <==> self@.entries.len() == 0,
    {
        let empty = store_is_empty(&self.map);
        proof {
            if self@.entries.len() == 0 {
                assert(self@.entries.dom() =~= Set::<u64>::empty());
                assert(self@.entries =~= Map::<u64, Seq<char>>::empty());
            }
        }
        empty
    }

    /// The number of lookups that found their key.
    #[verifier::when_used_as_spec(spec_hits)]
    pub fn hits(&self) -> (count: usize)
        ensures
            count == self.hits(),
    {
        self.statistics.hits()
    }

    /// The number of lookups that did not find their key.
    #[verifier::when_used_as_spec(spec_misses)]
    pub fn misses(&self) -> (count: usize)
        ensures
            count == self.misses(),
    {
        self.statistics.misses()
    }

    /// Every entry once, in an order that is left open.
    pub fn entries(&self) -> (entries: Vec<(u64, String)>)
        ensures
            lists(entries.deep_view(), self@.entries),
    {
        store_entries(&self.map)
    }

    /// The snapshot of the cache: its entries, encoded. The cache stays as it
    /// is.
    pub fn write(&self) -> (res: Result<Vec<u8>, SnapshotError>)
        ensures
            written(self@.entries, res),
    {
        let entries = store_entries(&self.map);
        let res = encode(&entries);
        assert(encoded(entries.deep_view(), res));
        res
    }

    /// Inserts each entry of a list in turn.
    pub fn absorb(&mut self, entries: &Vec<(u64, String)>)
        requires
            old(self).wf(),
        ensures
            final(self).wf(),
            final(self)@ == old(self)@.absorbed(entries.deep_view()),
            old(self).same_counts(final(self)),
    {
        let mut i: usize = 0;
        while i < entries.len()
            invariant
                0 <= i <= entries.len(),
                self.wf(),
                self@ == old(self)@.absorbed(entries.deep_view().take(i as int)),
                old(self).same_counts(self),
            decreases entries.len() - i,
        {
            let key = entries[i].0;
            let value = entries[i].1.clone();
            proof {
                let before = entries.deep_view().take(i as int);
                let after = entries.deep_view().take(i + 1);
                assert(after.drop_last() =~= before);
                assert(after.last() == (key, value@));
            }
            self.insert(key, value);
            i = i + 1;
        }
        proof {
            assert(entries.deep_view().take(i as int) =~= entries.deep_view());
        }
    }

    /// Merges a snapshot into the cache: each entry that the bytes hold is
    /// inserted, in their order, as `insert` does it. Bytes that hold no list
    /// of entries change nothing.
    pub fn read(&mut self, bytes: &[u8]) -> (res: Result<(), SnapshotError>)
        requires
            old(self).wf(),
        ensures
            final(self).wf(),
            old(self).loaded(final(self), bytes@, res),
    {
        match decode(bytes) {
            Ok(entries) => {
                self.absorb(&entries);
                Ok(())
            },
            Err(e) => Err(e),
        }
    }
}

/// The model of an empty cache with a capacity.
pub open spec fn empty_view(capacity: nat) -> LruView {
    LruView { entries: Map::empty(), order: Seq::empty(), capacity }
}

/// After an insert the cache holds no more entries than its capacity, and
/// the one key that may have left is the key touched longest ago: the first
/// of the order as the insert's own touch leaves it. Unless the capacity is
/// zero, that is the first key of the order before the insert, and it leaves
/// exactly when the cache was full and the inserted key is new.
pub proof fn law_insert_gives_up_oldest(state: LruView, key: u64, value: Seq<char>)
    requires
        state.wf(),
    ensures
        state.inserted(key, value).wf(),
        state.inserted(key, value).entries.dom().finite(),
        state.inserted(key, value).entries.len() <= state.capacity,
        forall|k: u64|
            (state.entries.contains_key(k) || k == key) && !state.inserted(
                key,
                value,
            ).entries.contains_key(k) ==> k == promoted(state.order, key)[0],
        state.capacity > 0 ==> state.inserted(key, value).entries.contains_key(key)
            && state.inserted(key, value).entries[key] == value,
        state.capacity > 0 && (state.order.len() < state.capacity || state.entries.contains_key(
            key,
        )) ==> state.inserted(key, value).entries == state.entries.insert(key, value),
        state.capacity > 0 && state.order.len() == state.capacity && !state.entries.contains_key(
            key,
        ) ==> state.inserted(key, value).entries == state.entries.insert(key, value).remove(
            state.order[0],
        ) && state.inserted(key, value).order == state.order.drop_first().push(key),
{
    lemma_steps_keep_wf(state, key, value);
    lemma_promoted(state.order, key);
    lemma_remove_value(state.order, key);
    let after = state.inserted(key, value);
    after.order.unique_seq_to_set();
    let touched = promoted(state.order, key);
    assert(state.order.to_set().contains(key) <==> state.entries.contains_key(key));
    if touched.len() > state.capacity && state.capacity > 0 {
        assert(touched[0] != touched[touched.len() - 1]);
        assert(!state.entries.contains_key(key));
        assert(touched[0] == state.order[0]);
        assert(after.order =~= state.order.drop_first().push(key));
    }
}

/// A lookup of a present key finds it and adds one to the hits alone; a
/// lookup of an absent key finds nothing and adds one to the misses alone.
/// This holds short of a counter's last value, after which it starts again.
pub proof fn law_lookup_counts_one(before: LRU, after: LRU, key: u64, found: Option<String>)
    requires
        before.got(&after, key, found),
        before.hits() < usize::MAX,
        before.misses() < usize::MAX,
    ensures
        before@.entries.contains_key(key) ==> found is Some && after.hits() == before.hits() + 1
            && after.misses() == before.misses(),
        !before@.entries.contains_key(key) ==> found is None && after.hits() == before.hits()
            && after.misses() == before.misses() + 1,
{
}

/// Taking the last key out of an order that holds it nowhere else gives the
/// rest.
proof fn lemma_push_then_remove(rest: Seq<u64>, key: u64)
    requires
        !rest.contains(key),
    ensures
        rest.push(key).remove_value(key) == rest,
{
    let whole = rest.push(key);
    whole.index_of_first_ensures(key);
    assert(whole[rest.len() as int] == key);
    assert(whole.contains(key));
    let at = whole.index_of_first(key)->Some_0;
    if at < rest.len() {
        assert(rest[at] == key);
    }
    assert(whole.remove(at) =~= rest);
}

/// Inserting a pair a second time changes nothing: the entries, and so
/// their number, and the order stay.
pub proof fn law_insert_twice(state: LruView, key: u64, value: Seq<char>)
    requires
        state.wf(),
    ensures
        state.inserted(key, value).inserted(key, value) == state.inserted(key, value),
{
    lemma_steps_keep_wf(state, key, value);
    lemma_promoted(state.order, key);
    lemma_remove_value(state.order, key);
    let rest = state.order.remove_value(key);
    let touched = rest.push(key);
    let once = state.inserted(key, value);
    let twice = once.inserted(key, value);
    lemma_push_then_remove(rest, key);
    if touched.len() <= state.capacity {
        assert(once.order == touched);
        assert(twice.order =~= once.order);
        assert(twice.entries =~= once.entries);
    } else if state.capacity == 0 {
        assert(state.order.len() == 0);
        assert(once.order =~= Seq::<u64>::empty());
        assert(once.order.to_set() =~= Set::<u64>::empty());
        assert(once.entries =~= state.entries);
        assert(once.order =~= state.order);
        assert(once == state);
    } else {
        let front = touched.drop_first();
        assert(once.order == front);
        assert(touched[0] != touched[touched.len() - 1]);
        assert(front =~= rest.drop_first().push(key));
        assert(!rest.drop_first().contains(key)) by {
            if rest.drop_first().contains(key) {
                let j = choose|j: int|
                    0 <= j < rest.drop_first().len() && rest.drop_first()[j] == key;
                assert(rest[j + 1] == key);
            }
        }
        lemma_push_then_remove(rest.drop_first(), key);
        assert(promoted(once.order, key) =~= once.order);
        assert(once.entries.insert(key, value) =~= once.entries);
        assert(twice.order =~= once.order);
        assert(twice.entries =~= once.entries);
    }
}

/// Inserting a list without repeated keys, no longer than the capacity,
/// into an empty cache keeps every entry, in the list's order.
pub proof fn lemma_absorbed_fresh(capacity: nat, entries: Seq<EntryView>)
    requires
        keys(entries).no_duplicates(),
        entries.len() <= capacity,
    ensures
        empty_view(capacity).absorbed(entries).entries == merged(Map::empty(), entries),
        empty_view(capacity).absorbed(entries).order == keys(entries),
        empty_view(capacity).absorbed(entries).capacity == capacity,
    decreases entries.len(),
{
    if entries.len() == 0 {
        assert(keys(entries) =~= Seq::<u64>::empty());
    } else {
        let front = entries.drop_last();
        let last = entries.last();
        assert(keys(front) =~= keys(entries).drop_last());
        assert(keys(entries).last() == last.0);
        assert(keys(front).no_duplicates());
        lemma_absorbed_fresh(capacity, front);
        assert(!keys(front).contains(last.0)) by {
            if keys(front).contains(last.0) {
                let j = choose|j: int| 0 <= j < keys(front).len() && keys(front)[j] == last.0;
                assert(keys(entries)[j] == last.0);
            }
        }
        lemma_remove_value(keys(front), last.0);
        assert(keys(entries) =~= keys(front).push(last.0));
    }
}

/// The snapshot that `write` gives for a cache, read into an empty cache of
/// the same capacity, is accepted and leaves that cache with the entries of
/// the first.
pub proof fn law_round_trip(
    source: LRU,
    snapshot: Vec<u8>,
    fresh: LRU,
    restored: LRU,
    res: Result<(), SnapshotError>,
)
    requires
        source.wf(),
        written(source@.entries, Ok(snapshot)),
        fresh@ == empty_view(source@.capacity),
        fresh.loaded(&restored, snapshot@, res),
    ensures
        res is Ok,
        restored@.entries == source@.entries,
        restored@.capacity == source@.capacity,
{
    let entries = choose|entries: Seq<EntryView>|
        lists(entries, source@.entries) && #[trigger] encoded(entries, Ok(snapshot));
    assert(snapshot_bytes(entries) == Some(snapshot@));
    lemma_merged_lists(source@.entries, entries);
    assert(keys(entries).no_duplicates());
    assert forall|k: u64| keys(entries).to_set().contains(k) <==> source@.entries.dom().contains(
        k,
    ) by {
        if keys(entries).contains(k) {
            let i = choose|i: int| 0 <= i < keys(entries).len() && keys(entries)[i] == k;
            assert(entries[i].0 == k);
        }
        if source@.entries.contains_key(k) {
            let i = choose|i: int| 0 <= i < entries.len() && (#[trigger] entries[i]).0 == k;
            assert(keys(entries)[i] == k);
        }
    }
    assert(keys(entries).to_set() =~= source@.order.to_set());
    keys(entries).unique_seq_to_set();
    source@.order.unique_seq_to_set();
    lemma_absorbed_fresh(source@.capacity, entries);
}

} // verus!
