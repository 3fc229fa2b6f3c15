//! The outside hash map that stores a counter's entries, and the
//! contracts of the few operations the counter performs on it.
use ahash::{AHashMap, RandomState};
use vstd::prelude::*;

use crate::model::enumerates;

verus! {

#[verifier::external_type_specification]
#[verifier::external_body]
#[verifier::reject_recursive_types(K)]
#[verifier::reject_recursive_types(V)]
#[verifier::reject_recursive_types(S)]
pub struct ExAHashMap<K, V, S>(AHashMap<K, V, S>);

#[verifier::external_type_specification]
#[verifier::external_body]
pub struct ExRandomState(RandomState);

/// The key-value pairs that a map holds.
pub uninterp spec fn map_contents(m: AHashMap<u64, u64>) -> Map<u64, u64>;

/// Relies on `AHashMap::new`: the map it creates holds no entry.
#[verifier::external_body]
pub(crate) fn map_new() -> (r: AHashMap<u64, u64>)
    ensures
        map_contents(r) =~= Map::empty(),
{
    AHashMap::new()
}

/// Relies on `AHashMap::get`: the value stored under `k`, if any.
#[verifier::external_body]
pub(crate) fn map_get<'a>(m: &'a AHashMap<u64, u64>, k: &u64) -> (r: Option<&'a u64>)
    ensures
        r == (if map_contents(*m).contains_key(*k) {
            Some(&map_contents(*m)[*k])
        } else {
            None
        }),
{
    m.get(k)
}

/// Relies on `HashMap::entry` and `Entry::or_insert`: a handle to the value
/// under `k`, which is first set to `v` where `k` has no entry.
#[verifier::external_body]
pub(crate) fn map_entry_or_insert(m: &mut AHashMap<u64, u64>, k: u64, v: u64) -> (r: &mut u64)
    ensures
        *r == (if map_contents(*old(m)).contains_key(k) {
            map_contents(*old(m))[k]
        } else {
            v
        }),
        map_contents(*final(m)) == map_contents(*old(m)).insert(k, *final(r)),
{
    m.entry(k).or_insert(v)
}

/// Relies on `HashMap::iter`: it visits each entry of the map once, in
/// an order the map does not fix.
#[verifier::external_body]
pub(crate) fn map_entries(m: &AHashMap<u64, u64>) -> (r: Vec<(u64, u64)>)
    ensures
        enumerates(r@, map_contents(*m)),
{
    m.iter().map(|(k, v)| (*k, *v)).collect()
}

} // verus!
