//! Trusted access to `rustc_hash::FxHashMap`, the fast deterministic hash map
//! used for every registry and cache of the adapters.
use vstd::prelude::*;
use vstd::std_specs::hash::obeys_key_model;
use rustc_hash::{FxBuildHasher, FxHashMap};

verus! {

/// `rustc_hash::FxBuildHasher`, the builder of the maps' deterministic hasher.
#[verifier::external_type_specification]
#[verifier::external_body]
pub struct ExFxBuildHasher(FxBuildHasher);

/// Calls `FxHashMap::with_capacity_and_hasher`: a new map holds no entries.
#[verifier::external_body]
pub fn fx_map_with_capacity<K, V>(capacity: usize) -> (r: FxHashMap<K, V>)
    ensures
        r@.dom().is_empty(),
        r@.dom().finite(),
{
    FxHashMap::with_capacity_and_hasher(capacity, FxBuildHasher)
}

/// Calls `HashMap::get` on an `FxHashMap`: the value stored under `k`, if any.
/// Holds for key types whose `Eq` and `Hash` agree with equality of values.
#[verifier::external_body]
pub fn fx_get<'a, K: std::hash::Hash + Eq, V>(m: &'a FxHashMap<K, V>, k: &K) -> (r: Option<&'a V>)
    requires
        obeys_key_model::<K>(),
    ensures
        match r {
            Some(v) => m@.contains_key(*k) && *v == m@[*k],
            None => !m@.contains_key(*k),
        },
{
    m.get(k)
}

/// Calls `HashMap::contains_key` on an `FxHashMap`.
#[verifier::external_body]
pub fn fx_contains_key<K: std::hash::Hash + Eq, V>(m: &FxHashMap<K, V>, k: &K) -> (r: bool)
    requires
        obeys_key_model::<K>(),
    ensures
        r == m@.contains_key(*k),
{
    m.contains_key(k)
}

/// Calls `HashMap::insert` on an `FxHashMap`: `k` maps to `v` afterwards and
/// the previous value under `k`, if any, is returned.
#[verifier::external_body]
pub fn fx_insert<K: std::hash::Hash + Eq, V>(m: &mut FxHashMap<K, V>, k: K, v: V) -> (r: Option<V>)
    requires
        obeys_key_model::<K>(),
    ensures
        final(m)@ == old(m)@.insert(k, v),
        match r {
            Some(prev) => old(m)@.contains_key(k) && prev == old(m)@[k],
            None => !old(m)@.contains_key(k),
        },
{
    m.insert(k, v)
}

/// Calls `HashMap::remove` on an `FxHashMap`: `k` is absent afterwards and its
/// previous value, if any, is returned.
#[verifier::external_body]
pub fn fx_remove<K: std::hash::Hash + Eq, V>(m: &mut FxHashMap<K, V>, k: &K) -> (r: Option<V>)
    requires
        obeys_key_model::<K>(),
    ensures
        final(m)@ == old(m)@.remove(*k),
        match r {
            Some(prev) => old(m)@.contains_key(*k) && prev == old(m)@[*k],
            None => !old(m)@.contains_key(*k),
        },
{
    m.remove(k)
}

/// Calls `HashMap::keys` on an `FxHashMap`, collected: every key once, in
/// the map's (unspecified) iteration order.
#[verifier::external_body]
pub fn fx_keys<K: std::hash::Hash + Eq + Copy, V>(m: &FxHashMap<K, V>) -> (r: Vec<K>)
    requires
        obeys_key_model::<K>(),
    ensures
        r@.no_duplicates(),
        r@.to_set() == m@.dom(),
{
    m.keys().copied().collect()
}

/// Calls `HashMap::len` on an `FxHashMap`: the number of entries.
#[verifier::external_body]
pub fn fx_len<K: std::hash::Hash + Eq, V>(m: &FxHashMap<K, V>) -> (r: usize)
    requires
        obeys_key_model::<K>(),
    ensures
        r == m@.len(),
{
    m.len()
}

/// Calls `HashMap::capacity` on an `FxHashMap`: the map holds at least its
/// entries without reallocating.
#[verifier::external_body]
pub fn fx_capacity<K: std::hash::Hash + Eq, V>(m: &FxHashMap<K, V>) -> (r: usize)
    ensures
        m@.dom().finite() ==> r >= m@.len(),
{
    m.capacity()
}

/// Calls `Vec::capacity`: a vector holds at least its elements without reallocating.
#[verifier::external_body]
pub fn vec_capacity<T>(v: &Vec<T>) -> (r: usize)
    ensures
        r >= v@.len(),
{
    v.capacity()
}

/// Calls `HashMap::reserve` on an `FxHashMap`: only the capacity changes.
#[verifier::external_body]
pub fn fx_reserve<K: std::hash::Hash + Eq, V>(m: &mut FxHashMap<K, V>, additional: usize)
    ensures
        final(m)@ == old(m)@,
{
    m.reserve(additional)
}

} // verus!
