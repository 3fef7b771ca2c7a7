//! The hash table behind an aggregate map: a `HashMap` with the Fx hasher,
//! keyed by inline byte strings of bounded length.

use crate::aggregate::Aggregate;
use arrayvec::ArrayVec;
use rustc_hash::FxBuildHasher;
use std::collections::HashMap;
use vstd::prelude::*;

verus! {

/// The longest key, in bytes, that the table can hold.
pub const KEY_CAPACITY: usize = 36;

/// `arrayvec::ArrayVec`: a vector of at most `CAP` items, held inline. Its
/// contents are opaque here; [`key_bytes`] names them.
#[verifier::external_type_specification]
#[verifier::external_body]
#[verifier::reject_recursive_types(T)]
pub struct ExArrayVec<T, const CAP: usize>(ArrayVec<T, CAP>);

/// `rustc_hash::FxBuildHasher`: the maker of the table's hashers. It holds
/// no state, so every table hashes alike.
#[verifier::external_type_specification]
#[verifier::external_body]
pub struct ExFxBuildHasher(FxBuildHasher);

/// A key of the table: up to [`KEY_CAPACITY`] bytes held inline.
pub type Key = ArrayVec<u8, KEY_CAPACITY>;

/// The table itself: a `HashMap` from keys to aggregates that hashes with
/// the Fx hasher. Two keys are the same key exactly when their bytes are
/// the same, so the table is a map from byte strings to aggregates.
pub type Table = HashMap<Key, Aggregate, FxBuildHasher>;

/// The bytes that a key holds, in order.
pub uninterp spec fn key_bytes(k: Key) -> Seq<u8>;

/// What a table holds: the aggregate stored under each key, keys taken by
/// their bytes.
pub uninterp spec fn table_entries(t: Table) -> Map<Seq<u8>, Aggregate>;

/// `HashMap::default` with the Fx hasher: a table that holds nothing.
#[verifier::external_body]
pub(crate) fn table_new() -> (t: Table)
    ensures
        table_entries(t) == (Map::<Seq<u8>, Aggregate>::empty()),
{
    HashMap::default()
}

/// `HashMap::get_mut`, looked up by the key's bytes: a reference to the
/// aggregate stored under `key`, if there is one. Writing through the
/// reference changes that entry and no other.
#[verifier::external_body]
pub(crate) fn table_get_mut<'a>(t: &'a mut Table, key: &[u8]) -> (r: Option<&'a mut Aggregate>)
    ensures
        match r {
            Some(a) => {
                &&& table_entries(*old(t)).contains_key(key@)
                &&& *a == table_entries(*old(t))[key@]
                &&& table_entries(*final(t)) == table_entries(*old(t)).insert(key@, *final(a))
            },
            None => {
                &&& !table_entries(*old(t)).contains_key(key@)
                &&& table_entries(*final(t)) == table_entries(*old(t))
            },
        },
{
    t.get_mut(key)
}

/// `ArrayVec::try_from` on a slice: a key that holds the bytes of `bytes`,
/// which exists exactly when they fit the key's capacity.
#[verifier::external_body]
pub(crate) fn key_from_slice(bytes: &[u8]) -> (r: Option<Key>)
    ensures
        r.is_some() <==> bytes@.len() <= KEY_CAPACITY,
        r matches Some(k) ==> key_bytes(k) == bytes@,
{
    ArrayVec::try_from(bytes).ok()
}

/// `HashMap::insert`: stores `agg` under `key`, in place of what was stored
/// under a key of the same bytes before.
#[verifier::external_body]
pub(crate) fn table_insert(t: &mut Table, key: Key, agg: Aggregate)
    ensures
        table_entries(*final(t)) == table_entries(*old(t)).insert(key_bytes(key), agg),
{
    t.insert(key, agg);
}

/// `HashMap::get`, looked up by the key's bytes: a copy of the aggregate
/// stored under `key`, if there is one.
#[verifier::external_body]
pub(crate) fn table_get(t: &Table, key: &[u8]) -> (r: Option<Aggregate>)
    ensures
        r == if table_entries(*t).contains_key(key@) {
            Some(table_entries(*t)[key@])
        } else {
            None
        },
{
    t.get(key).copied()
}

/// `HashMap::clone`: a second table with the same entries.
#[verifier::external_body]
pub(crate) fn table_clone(t: &Table) -> (r: Table)
    ensures
        table_entries(r) == table_entries(*t),
{
    t.clone()
}

/// `HashMap::len`: the number of keys that the table holds.
#[verifier::external_body]
pub(crate) fn table_len(t: &Table) -> (n: usize)
    ensures
        n == table_entries(*t).dom().len(),
{
    t.len()
}

/// Whether `v` lists the entries of `m`: each item is an entry of `m`, no key
/// comes twice, and no entry of `m` is left out. The order is left open.
pub open spec fn lists(v: Seq<(Vec<u8>, Aggregate)>, m: Map<Seq<u8>, Aggregate>) -> bool {
    &&& forall|i: int|
        0 <= i < v.len() ==> m.contains_key(#[trigger] v[i].0@) && m[v[i].0@] == v[i].1
    &&& forall|i: int, j: int| 0 <= i < j < v.len() ==> #[trigger] v[i].0@ != #[trigger] v[j].0@
    &&& forall|k: Seq<u8>| #[trigger]
        m.contains_key(k) ==> exists|i: int| 0 <= i < v.len() && #[trigger] v[i].0@ == k
}

/// `HashMap::iter`, collected: the entries of the table, each key copied out
/// as its bytes, in the order in which the table happens to walk them.
#[verifier::external_body]
pub(crate) fn table_to_vec(t: &Table) -> (v: Vec<(Vec<u8>, Aggregate)>)
    ensures
        lists(v@, table_entries(*t)),
{
    t.iter().map(|(k, a)| (k.to_vec(), *a)).collect()
}

} // verus!
