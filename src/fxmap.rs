//! The hash maps the clustering keeps its bookkeeping in.

use rustc_hash::FxHashMap;
use std::hash::Hash;
use vstd::prelude::*;
use vstd::std_specs::hash::obeys_key_model;

verus! {

#[verifier::external_type_specification]
#[verifier::external_body]
pub struct ExFxBuildHasher(rustc_hash::FxBuildHasher);

/// Relies on `FxHashMap::default` (std's `HashMap` with the Fx hasher):
/// the new map is empty.
#[verifier::external_body]
pub(crate) fn fx_new<K, V>() -> (r: FxHashMap<K,V>)
    ensures
        r@.dom() == Set::<K>::empty(),
{
    FxHashMap::default()
}

/// Relies on `HashMap::get` of an `FxHashMap`: the value stored under `k`,
/// if any.
#[verifier::external_body]
pub(crate) fn fx_get<K: Eq + Hash, V: Copy>(m: &FxHashMap<K, V>, k: &K) -> (r: Option<V>)
    requires
        obeys_key_model::<K>(),
    ensures
        match r {
            Some(v) => m@.contains_key(*k) && m@[*k] == v,
            None => !m@.contains_key(*k),
        },
{
    m.get(k).copied()
}

/// Relies on `HashMap::insert` of an `FxHashMap`: afterwards `k` maps to
/// `v` and every other key is unchanged.
#[verifier::external_body]
pub(crate) fn fx_insert<K: Eq + Hash, V>(m: &mut FxHashMap<K, V>, k: K, v: V)
    requires
        obeys_key_model::<K>(),
    ensures
        final(m)@ == old(m)@.insert(k, v),
{
    m.insert(k, v);
}

} // verus!
