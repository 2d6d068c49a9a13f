//! Hash tables of `rustc_hash`: the tables of the standard library under the Fx hash.
//!
//! A table is seen as the `Map` or `Set` of what it holds. Making a table and cloning one
//! need nothing from here.

use rustc_hash::{FxHashMap, FxHashSet};
use std::hash::Hash;
use vstd::prelude::*;

verus! {

/// The hash builder of the tables. It has no state: every hasher that it builds starts
/// the same and is a function of what is written to it.
#[verifier::external_type_specification]
#[verifier::external_body]
pub struct ExFxBuildHasher(rustc_hash::FxBuildHasher);

/// `insert` of an `FxHashMap` puts the value under the key and gives back what was there.
#[verifier::external_body]
pub(crate) fn map_insert<K: Eq + Hash, V>(map: &mut FxHashMap<K, V>, key: K, value: V) -> (previous:
    Option<V>)
    requires
        vstd::std_specs::hash::obeys_key_model::<K>(),
    ensures
        final(map)@ == old(map)@.insert(key, value),
        previous == (if old(map)@.contains_key(key) {
            Some(old(map)@[key])
        } else {
            None
        }),
{
    map.insert(key, value)
}

/// `get` of an `FxHashMap` gives the value under the key, if there is one.
#[verifier::external_body]
pub(crate) fn map_get<'a, K: Eq + Hash, V>(map: &'a FxHashMap<K, V>, key: &K) -> (value: Option<
    &'a V,
>)
    requires
        vstd::std_specs::hash::obeys_key_model::<K>(),
    ensures
        value == (if map@.contains_key(*key) {
            Some(&map@[*key])
        } else {
            None
        }),
{
    map.get(key)
}

/// `iter` of an `FxHashMap` walks every key with its value once. The order is left open.
#[verifier::external_body]
pub(crate) fn map_entries<'a, K: Eq + Hash, V>(map: &'a FxHashMap<K, V>) -> (entries: Vec<
    (&'a K, &'a V),
>)
    requires
        vstd::std_specs::hash::obeys_key_model::<K>(),
    ensures
        entries@.len() == map@.dom().len(),
        forall|i: int|
            #![trigger entries@[i]]
            0 <= i < entries@.len() ==> map@.contains_key(*entries@[i].0) && map@[*entries@[i].0]
                == *entries@[i].1,
        forall|i: int, j: int|
            #![trigger entries@[i], entries@[j]]
            0 <= i < j < entries@.len() ==> *entries@[i].0 != *entries@[j].0,
        forall|key: K| #[trigger]
            map@.contains_key(key) ==> exists|i: int|
                0 <= i < entries@.len() && *(#[trigger] entries@[i]).0 == key,
{
    map.iter().collect()
}

/// `insert` of an `FxHashSet` puts the value in and says whether it is new.
#[verifier::external_body]
pub(crate) fn set_insert<K: Eq + Hash>(set: &mut FxHashSet<K>, value: K) -> (new: bool)
    requires
        vstd::std_specs::hash::obeys_key_model::<K>(),
    ensures
        final(set)@ == old(set)@.insert(value),
        new == !old(set)@.contains(value),
{
    set.insert(value)
}

/// `remove` of an `FxHashSet` takes the value out and says whether it was there.
#[verifier::external_body]
pub(crate) fn set_remove<K: Eq + Hash>(set: &mut FxHashSet<K>, value: &K) -> (found: bool)
    requires
        vstd::std_specs::hash::obeys_key_model::<K>(),
    ensures
        final(set)@ == old(set)@.remove(*value),
        found == old(set)@.contains(*value),
{
    set.remove(value)
}

/// `drain` of an `FxHashSet` empties it and walks every value once. The order is left open.
#[verifier::external_body]
pub(crate) fn set_drain<K: Eq + Hash>(set: &mut FxHashSet<K>) -> (values: Vec<K>)
    requires
        vstd::std_specs::hash::obeys_key_model::<K>(),
    ensures
        final(set)@ == Set::<K>::empty(),
        values@.no_duplicates(),
        values@.to_set() == old(set)@,
{
    set.drain().collect()
}

} // verus!
