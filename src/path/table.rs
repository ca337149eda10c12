//! The planner's lookup tables: fnv's `FnvHashMap` (std's `HashMap` with the
//! FNV hasher) from `u64` keys to `u64` values.
//!
//! vstd states `HashMap`'s behaviour only for hashers it knows, so each
//! operation used here states it again for the FNV hasher, over the map's view.
use fnv::{FnvHashMap, FnvHasher};
use std::hash::BuildHasherDefault;
use vstd::prelude::*;

verus! {

#[verifier::external_type_specification]
#[verifier::external_body]
pub struct ExFnvHasher(FnvHasher);

#[verifier::external_type_specification]
#[verifier::external_body]
#[verifier::reject_recursive_types(H)]
pub struct ExBuildHasherDefault<H>(BuildHasherDefault<H>);

/// Relies on `FnvHashMap::default`: an empty map.
#[verifier::external_body]
pub(crate) fn table_new() -> (r: FnvHashMap<u64, u64>)
    ensures
        r@ =~= Map::empty(),
{
    FnvHashMap::default()
}

/// Relies on `HashMap::get` under the FNV hasher: the value stored under `key`.
#[verifier::external_body]
pub(crate) fn table_get(m: &FnvHashMap<u64, u64>, key: u64) -> (r: Option<u64>)
    ensures
        r == (if m@.contains_key(key) {
            Some(m@[key])
        } else {
            None
        }),
{
    m.get(&key).copied()
}

/// Relies on `HashMap::insert` under the FNV hasher: `key` now maps to `value`.
#[verifier::external_body]
pub(crate) fn table_insert(m: &mut FnvHashMap<u64, u64>, key: u64, value: u64)
    ensures
        final(m)@ == old(m)@.insert(key, value),
{
    m.insert(key, value);
}

/// Relies on `HashMap::clear`: the map is empty afterwards.
#[verifier::external_body]
pub(crate) fn table_clear(m: &mut FnvHashMap<u64, u64>)
    ensures
        final(m)@ =~= Map::empty(),
{
    m.clear()
}

/// Relies on `HashMap::keys`: each key once, in no stated order.
#[verifier::external_body]
pub(crate) fn table_keys(m: &FnvHashMap<u64, u64>) -> (r: Vec<u64>)
    ensures
        r@.to_set() == m@.dom(),
        r@.no_duplicates(),
{
    m.keys().copied().collect()
}

} // verus!
