//! Snapshots: the entries of a cache as one block of bytes, and back.
//!
//! The byte format is bincode's encoding of a list of pairs. What the encoder
//! and the decoder return is taken on trust and spoken of by name.

use crate::store::lists;
use vstd::prelude::*;

verus! {

/// The model of one entry: a key and the characters of its value.
pub type EntryView = (u64, Seq<char>);

/// `bincode::ErrorKind`, the reason that bincode gives for a failure. Nothing
/// is read from it.
#[verifier::external_type_specification]
#[verifier::external_body]
pub struct ExErrorKind(bincode::ErrorKind);

/// Why a snapshot could not be written or read.
#[derive(Clone, Copy, Debug, PartialEq, Eq, Structural)]
pub enum SnapshotError {
    /// The entries could not be encoded.
    EncodeFailure,
    /// There were no bytes at all.
    EmptyPayload,
    /// The bytes are not the encoding of a list of entries.
    DecodeFailure,
}

impl SnapshotError {
    /// A short text for the error.
    pub fn message(&self) -> (text: &'static str)
        ensures
            text@ == match *self {
                SnapshotError::EncodeFailure => "Serialization failed"@,
                SnapshotError::EmptyPayload => "File is empty"@,
                SnapshotError::DecodeFailure => "Deserialization failed"@,
            },
    {
        match self {
            SnapshotError::EncodeFailure => "Serialization failed",
            SnapshotError::EmptyPayload => "File is empty",
            SnapshotError::DecodeFailure => "Deserialization failed",
        }
    }
}

/// The bytes that `bincode::serialize` gives for a list of entries, `None`
/// where it fails.
pub uninterp spec fn snapshot_bytes(entries: Seq<EntryView>) -> Option<Seq<u8>>;

/// The list of entries that `bincode::deserialize` reads from bytes, `None`
/// where it fails.
pub uninterp spec fn snapshot_entries(bytes: Seq<u8>) -> Option<Seq<EntryView>>;

/// `bincode::serialize` on a list of entries. The result depends on the
/// entries alone; an encoding starts with the list's length in eight bytes.
#[verifier::external_body]
fn bincode_serialize(entries: &Vec<(u64, String)>) -> (res: Result<
    Vec<u8>,
    Box<bincode::ErrorKind>,
>)
    ensures
        match res {
            Ok(bytes) => snapshot_bytes(entries.deep_view()) == Some(bytes@) && bytes@.len() >= 8,
            Err(_) => snapshot_bytes(entries.deep_view()) is None,
        },
{
    bincode::serialize(entries)
}

/// `bincode::deserialize` to a list of entries. The result depends on the
/// bytes alone, and bytes that `bincode::serialize` gave for a list are read
/// back as that list.
#[verifier::external_body]
fn bincode_deserialize(bytes: &[u8]) -> (res: Result<Vec<(u64, String)>, Box<bincode::ErrorKind>>)
    ensures
        match res {
            Ok(entries) => snapshot_entries(bytes@) == Some(entries.deep_view()),
            Err(_) => snapshot_entries(bytes@) is None,
        },
        forall|entries: Seq<EntryView>| #[trigger]
            snapshot_bytes(entries) == Some(bytes@) ==> res is Ok && res->Ok_0.deep_view()
                == entries,
{
    bincode::deserialize(bytes)
}

/// What `encode` returns for a list of entries.
pub open spec fn encoded(entries: Seq<EntryView>, res: Result<Vec<u8>, SnapshotError>) -> bool {
    match res {
        Ok(bytes) => snapshot_bytes(entries) == Some(bytes@) && bytes@.len() > 0,
        Err(e) => snapshot_bytes(entries) is None && e == SnapshotError::EncodeFailure,
    }
}

/// What reading `bytes` gives: the entries, or the reason why there are none.
pub open spec fn decoding(bytes: Seq<u8>) -> Result<Seq<EntryView>, SnapshotError> {
    if bytes.len() == 0 {
        Err(SnapshotError::EmptyPayload)
    } else {
        match snapshot_entries(bytes) {
            Some(entries) => Ok(entries),
            None => Err(SnapshotError::DecodeFailure),
        }
    }
}

/// Bytes that encode some list are read back as that list.
pub open spec fn reads_back(bytes: Seq<u8>) -> bool {
    forall|entries: Seq<EntryView>| #[trigger]
        snapshot_bytes(entries) == Some(bytes) ==> snapshot_entries(bytes) == Some(entries)
}

/// What writing a cache that holds `map` returns: the encoding of some list
/// of its entries.
pub open spec fn written(map: Map<u64, Seq<char>>, res: Result<Vec<u8>, SnapshotError>) -> bool {
    exists|entries: Seq<EntryView>| lists(entries, map) && #[trigger] encoded(entries, res)
}

/// The map after inserting each entry of a list in turn: of two entries with
/// one key the later one stays.
pub open spec fn merged(base: Map<u64, Seq<char>>, entries: Seq<EntryView>) -> Map<
    u64,
    Seq<char>,
>
    decreases entries.len(),
{
    if entries.len() == 0 {
        base
    } else {
        merged(base, entries.drop_last()).insert(entries.last().0, entries.last().1)
    }
}

/// The keys of a list of entries, in its order.
pub open spec fn keys(entries: Seq<EntryView>) -> Seq<u64> {
    entries.map_values(|e: EntryView| e.0)
}

/// Merging binds each key of the list, and no key besides those of the base.
pub proof fn lemma_merged_dom(base: Map<u64, Seq<char>>, entries: Seq<EntryView>)
    ensures
        merged(base, entries).dom() == base.dom().union(keys(entries).to_set()),
    decreases entries.len(),
{
    if entries.len() == 0 {
        assert(keys(entries).to_set() =~= Set::<u64>::empty());
        assert(merged(base, entries).dom() =~= base.dom().union(keys(entries).to_set()));
    } else {
        let front = entries.drop_last();
        lemma_merged_dom(base, front);
        assert(keys(entries) =~= keys(front).push(entries.last().0));
        keys(front).lemma_push_to_set_commute(entries.last().0);
        assert(merged(base, entries).dom() =~= base.dom().union(keys(entries).to_set()));
    }
}

/// After merging, a key has the value of the last entry that names it.
pub proof fn lemma_merged_last_wins(base: Map<u64, Seq<char>>, entries: Seq<EntryView>, i: int)
    requires
        0 <= i < entries.len(),
        forall|j: int| i < j < entries.len() ==> entries[j].0 != entries[i].0,
    ensures
        merged(base, entries).contains_key(entries[i].0),
        merged(base, entries)[entries[i].0] == entries[i].1,
    decreases entries.len(),
{
    if i < entries.len() - 1 {
        let front = entries.drop_last();
        assert(front[i] == entries[i]);
        assert forall|j: int| i < j < front.len() implies front[j].0 != front[i].0 by {
            assert(front[j] == entries[j]);
        }
        lemma_merged_last_wins(base, front, i);
    }
}

/// Merging leaves a key that the list does not name as the base has it.
pub proof fn law_merge_keeps_other_keys(
    base: Map<u64, Seq<char>>,
    entries: Seq<EntryView>,
    key: u64,
)
    requires
        forall|i: int| 0 <= i < entries.len() ==> entries[i].0 != key,
    ensures
        merged(base, entries).contains_key(key) == base.contains_key(key),
        merged(base, entries)[key] == base[key],
    decreases entries.len(),
{
    if entries.len() > 0 {
        let front = entries.drop_last();
        assert forall|i: int| 0 <= i < front.len() implies front[i].0 != key by {
            assert(front[i] == entries[i]);
        }
        law_merge_keeps_other_keys(base, front, key);
    }
}

/// Merging a list of a map's entries into the empty map gives the map.
pub proof fn lemma_merged_lists(map: Map<u64, Seq<char>>, entries: Seq<EntryView>)
    requires
        lists(entries, map),
    ensures
        merged(Map::empty(), entries) == map,
{
    let built = merged(Map::empty(), entries);
    lemma_merged_dom(Map::empty(), entries);
    assert forall|k: u64| built.contains_key(k) <==> map.contains_key(k) by {
        if built.contains_key(k) {
            let i = choose|i: int| 0 <= i < keys(entries).len() && keys(entries)[i] == k;
            assert(entries[i].0 == k);
        }
        if map.contains_key(k) {
            let i = choose|i: int| 0 <= i < entries.len() && (#[trigger] entries[i]).0 == k;
            assert(keys(entries)[i] == k);
        }
    }
    assert forall|k: u64| map.contains_key(k) implies built[k] == map[k] by {
        let i = choose|i: int| 0 <= i < entries.len() && (#[trigger] entries[i]).0 == k;
        lemma_merged_last_wins(Map::empty(), entries, i);
    }
    assert(built =~= map);
}

/// Encodes a list of entries.
pub fn encode(entries: &Vec<(u64, String)>) -> (res: Result<Vec<u8>, SnapshotError>)
    ensures
        encoded(entries.deep_view(), res),
{
    match bincode_serialize(entries) {
        Ok(bytes) => Ok(bytes),
        Err(_) => Err(SnapshotError::EncodeFailure),
    }
}

/// Decodes a list of entries. No bytes at all are refused as such, before
/// any decoding.
pub fn decode(bytes: &[u8]) -> (res: Result<Vec<(u64, String)>, SnapshotError>)
    ensures
        match res {
            Ok(entries) => decoding(bytes@) == Ok::<Seq<EntryView>, SnapshotError>(
                entries.deep_view(),
            ),
            Err(e) => decoding(bytes@) == Err::<Seq<EntryView>, SnapshotError>(e),
        },
        bytes@.len() > 0 ==> reads_back(bytes@),
{
    if bytes.len() == 0 {
        return Err(SnapshotError::EmptyPayload);
    }
    match bincode_deserialize(bytes) {
        Ok(entries) => Ok(entries),
        Err(_) => Err(SnapshotError::DecodeFailure),
    }
}

} // verus!
