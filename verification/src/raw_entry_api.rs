//! Taking an entry out of a hash map without choosing which.

use std::collections::HashMap;
use std::hash::Hash;
use vstd::prelude::*;
use vstd::std_specs::hash::obeys_key_model;

verus! {

/// Takes some entry out of the map, if it has one, and returns it. Which
/// entry leaves is up to the order in which the table is walked.
pub fn mut_pop_map_no_clone<K: Copy + Eq + Hash, V>(m: &mut HashMap<K, V>) -> (popped: Option<(K, V)>)
    requires
        obeys_key_model::<K>(),
    ensures
        match popped {
            Some((k, v)) => old(m)@.contains_key(k) && old(m)@[k] == v && final(m)@ == old(m)@.remove(k),
            None => old(m)@.len() == 0 && final(m)@ == old(m)@,
        },
{
    let mut first: Option<K> = None;
    for k in it: m.keys()
        invariant_except_break
            first is None,
            it.index() == 0,
        invariant
            obeys_key_model::<K>(),
            m@ == old(m)@,
            it.seq().len() == m@.dom().len(),
        ensures
            first is Some ==> m@.contains_key(first->0),
            first is None ==> m@.dom().len() == 0,
    {
        first = Some(*k);
        break;
    }
    match first {
        Some(k) => {
            let v = m.remove(&k).unwrap();
            Some((k, v))
        },
        None => None,
    }
}

} // verus!
