//! The concurrent map that holds a cache's entries, and what is taken on
//! trust about it.
//!
//! Every function here that changes the map takes it by `&mut`, so that its
//! contract speaks of a map that nobody else touches during the call.

use dashmap::DashMap;
use vstd::prelude::*;

verus! {

/// `dashmap::DashMap`, a hash map in shards, each behind its own lock. What it
/// holds is spoken of through `held`.
#[verifier::external_type_specification]
#[verifier::external_body]
#[verifier::reject_recursive_types(K)]
#[verifier::reject_recursive_types(V)]
#[verifier::reject_recursive_types(S)]
pub struct ExDashMap<K, V, S>(DashMap<K, V, S>);

/// The entries that a map holds: each key with the characters of its value.
pub uninterp spec fn held(map: DashMap<u64, String>) -> Map<u64, Seq<char>>;

/// `DashMap::new`: the map it makes holds nothing.
#[verifier::external_body]
pub(crate) fn store_new() -> (map: DashMap<u64, String>)
    ensures
        held(map) == (Map::<u64, Seq<char>>::empty()),
{
    DashMap::new()
}

/// `DashMap::insert`: afterwards the key is bound to the new value and every
/// other key is as before; the value that the key had is handed back.
#[verifier::external_body]
pub(crate) fn store_insert(map: &mut DashMap<u64, String>, key: u64, value: String) -> (prior:
    Option<String>)
    ensures
        held(*final(map)) == held(*old(map)).insert(key, value@),
        match prior {
            Some(p) => held(*old(map)).contains_key(key) && held(*old(map))[key] == p@,
            None => !held(*old(map)).contains_key(key),
        },
{
    map.insert(key, value)
}

/// `DashMap::get`: a copy of the value that the key is bound to, if any.
#[verifier::external_body]
pub(crate) fn store_get(map: &DashMap<u64, String>, key: &u64) -> (found: Option<String>)
    ensures
        match found {
            Some(v) => held(*map).contains_key(*key) && held(*map)[*key] == v@,
            None => !held(*map).contains_key(*key),
        },
{
    match map.get(key) {
        Some(entry) => Some(entry.value().clone()),
        None => None,
    }
}

/// `DashMap::remove`: afterwards the key is unbound and every other key is as
/// before; the key and the value it had are handed back.
#[verifier::external_body]
pub(crate) fn store_remove(map: &mut DashMap<u64, String>, key: &u64) -> (taken: Option<
    (u64, String),
>)
    ensures
        held(*final(map)) == held(*old(map)).remove(*key),
        match taken {
            Some(pair) => held(*old(map)).contains_key(*key) && pair.0 == *key && held(
                *old(map),
            )[*key] == pair.1@,
            None => !held(*old(map)).contains_key(*key),
        },
{
    map.remove(key)
}

/// `DashMap::clear`: afterwards the map holds nothing.
#[verifier::external_body]
pub(crate) fn store_clear(map: &mut DashMap<u64, String>)
    ensures
        held(*final(map)) == (Map::<u64, Seq<char>>::empty()),
{
    map.clear()
}

/// `DashMap::len`: the number of keys.
#[verifier::external_body]
pub(crate) fn store_len(map: &DashMap<u64, String>) -> (count: usize)
    ensures
        count == held(*map).dom().len(),
{
    map.len()
}

/// `DashMap::is_empty`: whether the map holds no key.
#[verifier::external_body]
pub(crate) fn store_is_empty(map: &DashMap<u64, String>) -> (empty: bool)
    ensures
        empty <==> held(*map) == (Map::<u64, Seq<char>>::empty()),
{
    map.is_empty()
}

/// Whether a list holds each entry of a map exactly once, in whatever order.
pub open spec fn lists(entries: Seq<(u64, Seq<char>)>, map: Map<u64, Seq<char>>) -> bool {
    &&& forall|i: int, j: int|
        0 <= i < j < entries.len() ==> (#[trigger] entries[i]).0 != (#[trigger] entries[j]).0
    &&& forall|i: int|
        0 <= i < entries.len() ==> map.contains_key((#[trigger] entries[i]).0)
            && map[entries[i].0] == entries[i].1
    &&& forall|k: u64| #[trigger]
        map.contains_key(k) ==> exists|i: int|
            0 <= i < entries.len() && (#[trigger] entries[i]).0 == k
}

/// `DashMap::iter`, each item copied out: every key of the map comes exactly
/// once, with its value, in an order that is left open.
#[verifier::external_body]
pub(crate) fn store_entries(map: &DashMap<u64, String>) -> (entries: Vec<(u64, String)>)
    ensures
        lists(entries.deep_view(), held(*map)),
{
    map.iter().map(|entry| (*entry.key(), entry.value().clone())).collect()
}

} // verus!
