//! Hash maps keyed through `fxhash`.
//!
//! `FxHashMap<K, V>` is std's `HashMap` with `fxhash::FxHasher` as its hasher.
//! The functions here are the only places where such a map is read or
//! written; their contracts are believed, not proved.

use fxhash::{FxHashMap, FxHashSet, FxHasher};
use std::collections::VecDeque;
use std::hash::{BuildHasherDefault, Hash};
use vstd::prelude::*;
use vstd::std_specs::hash::obeys_key_model;

verus! {

/// `fxhash::FxHasher`, carried through as an opaque value.
#[verifier::external_type_specification]
#[verifier::external_body]
pub struct ExFxHasher(FxHasher);

/// `std::hash::BuildHasherDefault`, carried through as an opaque value.
#[verifier::external_type_specification]
#[verifier::external_body]
#[verifier::reject_recursive_types(H)]
pub struct ExBuildHasherDefault<H>(BuildHasherDefault<H>);

/// `HashMap::insert` on a map hashed by `FxHasher`: the entry for `k` becomes
/// `v`, every other entry stays, and the value that `k` had before comes back.
/// `FxHasher` starts from a fixed state and mixes its input without any seed,
/// so equal keys hash alike, which is all the map asks of a hasher.
#[verifier::external_body]
pub(crate) fn fx_insert<K: Eq + Hash, V>(m: &mut FxHashMap<K, V>, k: K, v: V) -> (prev: Option<V>)
    requires
        obeys_key_model::<K>(),
    ensures
        final(m)@ == old(m)@.insert(k, v),
        prev == (if old(m)@.contains_key(k) { Some(old(m)@[k]) } else { None }),
{
    m.insert(k, v)
}

/// `HashMap::remove` on a map hashed by `FxHasher`: the entry for `k` leaves
/// the map, and its value comes back if there was one.
#[verifier::external_body]
pub(crate) fn fx_remove<K: Eq + Hash, V>(m: &mut FxHashMap<K, V>, k: &K) -> (prev: Option<V>)
    requires
        obeys_key_model::<K>(),
    ensures
        final(m)@ == old(m)@.remove(*k),
        prev == (if old(m)@.contains_key(*k) { Some(old(m)@[*k]) } else { None }),
{
    m.remove(k)
}

/// `HashMap::get` on a map hashed by `FxHasher`: the value stored for `k`, if any.
#[verifier::external_body]
pub(crate) fn fx_get<'a, K: Eq + Hash, V>(m: &'a FxHashMap<K, V>, k: &K) -> (found: Option<&'a V>)
    requires
        obeys_key_model::<K>(),
    ensures
        found == (if m@.contains_key(*k) { Some(&m@[*k]) } else { None }),
{
    m.get(k)
}

/// `HashMap::contains_key` on a map hashed by `FxHasher`.
#[verifier::external_body]
pub(crate) fn fx_contains_key<K: Eq + Hash, V>(m: &FxHashMap<K, V>, k: &K) -> (found: bool)
    requires
        obeys_key_model::<K>(),
    ensures
        found == m@.contains_key(*k),
{
    m.contains_key(k)
}

/// `HashMap::len` on a map hashed by `FxHasher`: the number of keys.
#[verifier::external_body]
pub(crate) fn fx_len<K: Eq + Hash, V>(m: &FxHashMap<K, V>) -> (n: usize)
    requires
        obeys_key_model::<K>(),
    ensures
        n == m@.dom().len(),
{
    m.len()
}

/// `HashMap::keys` on a map hashed by `FxHasher`, collected: every key once,
/// in the order in which the table is walked, of which nothing is claimed.
#[verifier::external_body]
pub(crate) fn fx_keys<K: Copy + Eq + Hash, V>(m: &FxHashMap<K, V>) -> (keys: VecDeque<K>)
    requires
        obeys_key_model::<K>(),
    ensures
        keys@.no_duplicates(),
        keys@.to_set() == m@.dom(),
{
    m.keys().copied().collect()
}

/// `HashSet::insert` on a set hashed by `FxHasher`: the value is in the set
/// afterwards, and `true` comes back if it was not before.
#[verifier::external_body]
pub(crate) fn fx_set_insert<K: Eq + Hash>(s: &mut FxHashSet<K>, k: K) -> (fresh: bool)
    requires
        obeys_key_model::<K>(),
    ensures
        final(s)@ == old(s)@.insert(k),
        fresh == !old(s)@.contains(k),
{
    s.insert(k)
}

/// `HashSet::contains` on a set hashed by `FxHasher`.
#[verifier::external_body]
pub(crate) fn fx_set_contains<K: Eq + Hash>(s: &FxHashSet<K>, k: &K) -> (found: bool)
    requires
        obeys_key_model::<K>(),
    ensures
        found == s@.contains(*k),
{
    s.contains(k)
}

/// `HashSet::iter` on a set hashed by `FxHasher`, collected: every value
/// once, in the order in which the table is walked, of which nothing is
/// claimed.
#[verifier::external_body]
pub(crate) fn fx_set_items<K: Copy + Eq + Hash>(s: &FxHashSet<K>) -> (items: Vec<K>)
    requires
        obeys_key_model::<K>(),
    ensures
        items@.no_duplicates(),
        items@.to_set() == s@,
{
    s.iter().copied().collect()
}

} // verus!
