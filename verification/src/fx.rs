//! Hash maps and sets over page ids with the Fx hasher.
//!
//! `FxHashMap` and `FxHashSet` are std's hash map and hash set with
//! `rustc_hash::FxBuildHasher`, whose `BuildHasher` impl starts every hasher
//! from the same seed, so equal keys hash alike. Page ids are trusted `u64`
//! keys. The functions here are the only way the library touches these
//! collections; each states what the std method it calls does to the contents.

use vstd::prelude::*;

use rustc_hash::{FxHashMap, FxHashSet};

verus! {

/// `rustc_hash::FxBuildHasher`, carried as an opaque type parameter.
#[verifier::external_type_specification]
#[verifier::external_body]
pub struct ExFxBuildHasher(rustc_hash::FxBuildHasher);

/// `FxHashMap::default`: an empty map.
#[verifier::external_body]
pub(crate) fn map_new<V>() -> (m: FxHashMap<u64, V>)
    ensures
        m@.dom() == Set::<u64>::empty(),
{
    FxHashMap::default()
}

/// `HashMap::clone` of a map to numbers: a map with the same contents.
#[verifier::external_body]
pub(crate) fn map_clone(m: &FxHashMap<u64, u64>) -> (copy: FxHashMap<u64, u64>)
    ensures
        copy@ == m@,
{
    m.clone()
}

/// `HashMap::len`: the number of keys.
#[verifier::external_body]
pub(crate) fn map_len<V>(m: &FxHashMap<u64, V>) -> (n: usize)
    ensures
        n == m@.dom().len(),
{
    m.len()
}

/// `HashMap::contains_key`.
#[verifier::external_body]
pub(crate) fn map_contains<V>(m: &FxHashMap<u64, V>, key: u64) -> (found: bool)
    ensures
        found == m@.contains_key(key),
{
    m.contains_key(&key)
}

/// `HashMap::get`: the value under `key`, if there is one.
#[verifier::external_body]
pub(crate) fn map_get<V>(m: &FxHashMap<u64, V>, key: u64) -> (value: Option<&V>)
    ensures
        match value {
            Some(v) => m@.contains_key(key) && m@[key] == *v,
            None => !m@.contains_key(key),
        },
{
    m.get(&key)
}

/// `HashMap::get_mut`: a mutable reference to the value under `key`, if there
/// is one. What is written through it becomes the value under `key`; nothing
/// else changes.
#[verifier::external_body]
pub(crate) fn map_get_mut<V>(m: &mut FxHashMap<u64, V>, key: u64) -> (value: Option<&mut V>)
    ensures
        match value {
            Some(v) => {
                &&& old(m)@.contains_key(key)
                &&& *v == old(m)@[key]
                &&& final(m)@ == old(m)@.insert(key, *final(v))
            },
            None => !old(m)@.contains_key(key) && final(m)@ == old(m)@,
        },
{
    m.get_mut(&key)
}

/// `HashMap::insert`: puts `value` under `key` and returns what was there.
#[verifier::external_body]
pub(crate) fn map_insert<V>(m: &mut FxHashMap<u64, V>, key: u64, value: V) -> (previous: Option<V>)
    ensures
        final(m)@ == old(m)@.insert(key, value),
        match previous {
            Some(v) => old(m)@.contains_key(key) && old(m)@[key] == v,
            None => !old(m)@.contains_key(key),
        },
{
    m.insert(key, value)
}

/// `HashMap::remove`: takes `key` out and returns what was there.
#[verifier::external_body]
pub(crate) fn map_remove<V>(m: &mut FxHashMap<u64, V>, key: u64) -> (previous: Option<V>)
    ensures
        final(m)@ == old(m)@.remove(key),
        match previous {
            Some(v) => old(m)@.contains_key(key) && old(m)@[key] == v,
            None => !old(m)@.contains_key(key),
        },
{
    m.remove(&key)
}

/// `FxHashSet::default`: an empty set.
#[verifier::external_body]
pub(crate) fn set_new() -> (s: FxHashSet<u64>)
    ensures
        s@ == Set::<u64>::empty(),
{
    FxHashSet::default()
}

/// `HashSet::contains`.
#[verifier::external_body]
pub(crate) fn set_contains(s: &FxHashSet<u64>, key: u64) -> (found: bool)
    ensures
        found == s@.contains(key),
{
    s.contains(&key)
}

/// `HashSet::insert`: adds `key` and says whether it was new.
#[verifier::external_body]
pub(crate) fn set_insert(s: &mut FxHashSet<u64>, key: u64) -> (added: bool)
    ensures
        final(s)@ == old(s)@.insert(key),
        added == !old(s)@.contains(key),
{
    s.insert(key)
}

} // verus!
