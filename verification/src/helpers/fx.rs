//! Hash maps and hash sets with the hasher of `rustc_hash`.
//!
//! Keys are integers and tuples of integers and Booleans, whose comparison and hash depend on
//! their values alone.

use std::hash::Hash;

use rustc_hash::{FxBuildHasher, FxHashMap, FxHashSet};
use vstd::prelude::*;

use crate::solver::view::IntVal;

verus! {

/// The hasher of `rustc_hash`, which builds its state from nothing. Nothing is claimed of it.
#[verifier::external_type_specification]
#[verifier::external_body]
pub struct ExFxBuildHasher(FxBuildHasher);

/// The parts of an integer view, as a key: its kind, its decision, whether a literal is
/// negated, its factor and its summand.
pub type ViewKey = (u8, usize, bool, IntVal, IntVal);

/// The types of keys that are used. Their comparison and hash are those of std.
pub(crate) trait FxKey {

}

impl FxKey for usize {

}

impl FxKey for (usize, usize) {

}

impl FxKey for ViewKey {

}

/// `FxHashMap::default` gives a map without entries.
#[verifier::external_body]
pub(crate) fn map_new<K: FxKey + Copy + Eq + Hash, V: Copy>() -> (r: FxHashMap<K, V>)
    ensures
        forall|k: K| !#[trigger] r@.dom().contains(k),
{
    FxHashMap::default()
}

/// `HashMap::get` gives the value of the key, if the map has one.
#[verifier::external_body]
pub(crate) fn map_get<K: FxKey + Copy + Eq + Hash, V: Copy>(
    map: &FxHashMap<K, V>,
    key: K,
) -> (r: Option<V>)
    ensures
        match r {
            Some(v) => map@.dom().contains(key) && map@[key] == v,
            None => !map@.dom().contains(key),
        },
{
    map.get(&key).copied()
}

/// `HashMap::insert` gives the key the value, and returns the value that it had.
#[verifier::external_body]
pub(crate) fn map_insert<K: FxKey + Copy + Eq + Hash, V: Copy>(
    map: &mut FxHashMap<K, V>,
    key: K,
    value: V,
) -> (r: Option<V>)
    ensures
        final(map)@ == old(map)@.insert(key, value),
        match r {
            Some(v) => old(map)@.dom().contains(key) && old(map)@[key] == v,
            None => !old(map)@.dom().contains(key),
        },
{
    map.insert(key, value)
}

/// `HashMap::remove` takes the key out of the map, and returns the value that it had.
#[verifier::external_body]
pub(crate) fn map_remove<K: FxKey + Copy + Eq + Hash, V: Copy>(
    map: &mut FxHashMap<K, V>,
    key: K,
) -> (r: Option<V>)
    ensures
        final(map)@ == old(map)@.remove(key),
        match r {
            Some(v) => old(map)@.dom().contains(key) && old(map)@[key] == v,
            None => !old(map)@.dom().contains(key),
        },
{
    map.remove(&key)
}

/// `HashMap::keys` walks over every key once, in an order of which nothing is claimed.
#[verifier::external_body]
pub(crate) fn map_keys<K: FxKey + Copy + Eq + Hash, V: Copy>(map: &FxHashMap<K, V>) -> (r: Vec<K>)
    ensures
        r@.no_duplicates(),
        forall|k: K| #[trigger] r@.contains(k) <==> map@.dom().contains(k),
{
    map.keys().copied().collect()
}

/// `FxHashSet::default` gives a set without elements.
#[verifier::external_body]
pub(crate) fn set_new<K: FxKey + Copy + Eq + Hash>() -> (r: FxHashSet<K>)
    ensures
        forall|k: K| !#[trigger] r@.contains(k),
{
    FxHashSet::default()
}

/// `HashSet::contains` tells whether the set has the element.
#[verifier::external_body]
pub(crate) fn set_contains<K: FxKey + Copy + Eq + Hash>(set: &FxHashSet<K>, key: K) -> (r: bool)
    ensures
        r == set@.contains(key),
{
    set.contains(&key)
}

/// `HashSet::insert` adds the element, and tells whether it is new.
#[verifier::external_body]
pub(crate) fn set_insert<K: FxKey + Copy + Eq + Hash>(set: &mut FxHashSet<K>, key: K) -> (r: bool)
    ensures
        final(set)@ == old(set)@.insert(key),
        r == !old(set)@.contains(key),
{
    set.insert(key)
}

/// `HashSet::iter` walks over every element once, in an order of which nothing is claimed.
#[verifier::external_body]
pub(crate) fn set_elements<K: FxKey + Copy + Eq + Hash>(set: &FxHashSet<K>) -> (r: Vec<K>)
    ensures
        r@.no_duplicates(),
        forall|k: K| #[trigger] r@.contains(k) <==> set@.contains(k),
{
    set.iter().copied().collect()
}

} // verus!
