//! The calls into std's `HashMap` that vstd leaves without a specification.

use std::collections::HashMap;
use std::hash::{BuildHasher, Hash};
use vstd::prelude::*;
use vstd::std_specs::hash::{builds_valid_hashers, obeys_key_model};

verus! {

/// The map that backs a set: each element is a key, paired with the unit value.
pub type UnitMap<T, S> = HashMap<T, (), S>;

/// The element type and the hasher factory follow the hash-table model:
/// `==` on elements is spec equality and hashing is deterministic.
pub open spec fn hash_model<T, S>() -> bool {
    obeys_key_model::<T>() && builds_valid_hashers::<S>()
}

/// The dereferenced values of a sequence of references.
pub open spec fn deref_seq<T>(s: Seq<&T>) -> Seq<T> {
    s.map_values(|r: &T| *r)
}

/// Relies on HashMap::with_hasher: an empty map that uses the given factory.
#[verifier::external_body]
pub(crate) fn map_with_hasher<T, S>(hasher: S) -> (r: UnitMap<T, S>)
    ensures
        r@.dom() == Set::<T>::empty(),
{
    HashMap::with_hasher(hasher)
}

/// Relies on HashMap::with_capacity_and_hasher: an empty map with room reserved.
#[verifier::external_body]
pub(crate) fn map_with_capacity_and_hasher<T, S>(capacity: usize, hasher: S) -> (r: UnitMap<T, S>)
    ensures
        r@.dom() == Set::<T>::empty(),
{
    HashMap::with_capacity_and_hasher(capacity, hasher)
}

/// Relies on HashMap::hasher: a reference to the map's hasher factory.
#[verifier::external_body]
pub(crate) fn map_hasher<T, S>(m: &UnitMap<T, S>) -> (r: &S) {
    m.hasher()
}

/// Relies on HashMap::capacity: how many entries fit before the map grows.
#[verifier::external_body]
pub(crate) fn map_capacity<T, S>(m: &UnitMap<T, S>) -> (r: usize) {
    m.capacity()
}

/// Relies on HashMap::shrink_to_fit: it frees spare room and keeps every entry.
#[verifier::external_body]
pub(crate) fn map_shrink_to_fit<T: Eq + Hash, S: BuildHasher>(m: &mut UnitMap<T, S>)
    ensures
        final(m)@ == old(m)@,
{
    m.shrink_to_fit()
}

/// Relies on HashMap::get_key_value: the stored key equal to `k`, if there is one.
#[verifier::external_body]
pub(crate) fn map_stored_key<'a, T: Eq + Hash, S: BuildHasher>(
    m: &'a UnitMap<T, S>,
    k: &T,
) -> (r: Option<&'a T>)
    ensures
        (hash_model::<T, S>()) ==> match r {
            Some(stored) => m@.contains_key(*k) && *stored == *k,
            None => !m@.contains_key(*k),
        },
{
    m.get_key_value(k).map(|kv| kv.0)
}

/// Relies on HashMap::remove_entry: it removes the entry whose key equals `k`
/// and hands back the stored key.
#[verifier::external_body]
pub(crate) fn map_remove_entry<T: Eq + Hash, S: BuildHasher>(
    m: &mut UnitMap<T, S>,
    k: &T,
) -> (r: Option<T>)
    ensures
        (hash_model::<T, S>()) ==> {
            &&& final(m)@ == old(m)@.remove(*k)
            &&& match r {
                Some(stored) => old(m)@.contains_key(*k) && stored == *k,
                None => !old(m)@.contains_key(*k),
            }
        },
{
    m.remove_entry(k).map(|kv| kv.0)
}

/// Every entry qualifies for removal.
fn every_entry<T>(_key: &T, _value: &mut ()) -> (r: bool)
    ensures
        r,
{
    true
}

/// Relies on HashMap::extract_if, advanced once: it removes the first entry it
/// visits and hands out its key; an empty map gives nothing. Dropped then, it
/// leaves every entry it did not visit in the map.
#[verifier::external_body]
pub(crate) fn map_take_one<T, S>(m: &mut UnitMap<T, S>) -> (r: Option<T>)
    ensures
        (hash_model::<T, S>()) ==> match r {
            Some(k) => old(m)@.contains_key(k) && final(m)@ == old(m)@.remove(k),
            None => old(m)@.dom() == Set::<T>::empty() && final(m)@ == old(m)@,
        },
{
    m.extract_if(|k, v| every_entry(k, v)).next().map(|kv| kv.0)
}

/// Relies on HashMap::into_keys: every stored key once, taking the map apart.
#[verifier::external_body]
pub(crate) fn map_into_keys<T, S>(m: UnitMap<T, S>) -> (r: Vec<T>)
    ensures
        (hash_model::<T, S>()) ==> {
            &&& r@.to_set() == m@.dom()
            &&& r@.no_duplicates()
        },
{
    m.into_keys().collect()
}

} // verus!
