//! The names under which the programs of this collection are started.

use vstd::prelude::*;

verus! {

/// No name occurs twice.
pub open spec fn names_distinct(names: Seq<String>) -> bool {
    forall|i: int, j: int| 0 <= i < j < names.len() ==> names[i]@ != names[j]@
}

/// Whether every entry point has a name of its own.
pub fn ensure_entry_points_unique(names: &Vec<String>) -> (unique: bool)
    ensures
        unique == names_distinct(names@),
{
    let mut i: usize = 0;
    while i < names.len()
        invariant
            i <= names.len(),
            forall|a: int, b: int| 0 <= a < b < i ==> names@[a]@ != names@[b]@,
        decreases names.len() - i,
    {
        let mut j: usize = 0;
        while j < i
            invariant
                j <= i < names.len(),
                forall|a: int| 0 <= a < j ==> names@[a]@ != names@[i as int]@,
            decreases i - j,
        {
            if names[j] == names[i] {
                return false;
            }
            j += 1;
        }
        i += 1;
    }
    true
}

/// The first entry point of the given name, if there is one.
pub fn find_entry_point(names: &Vec<String>, wanted: &String) -> (found: Option<usize>)
    ensures
        match found {
            Some(i) => i < names@.len() && names@[i as int]@ == wanted@ && forall|k: int|
                0 <= k < i ==> names@[k]@ != wanted@,
            None => forall|k: int| 0 <= k < names@.len() ==> names@[k]@ != wanted@,
        },
{
    let mut i: usize = 0;
    while i < names.len()
        invariant
            i <= names.len(),
            forall|k: int| 0 <= k < i ==> names@[k]@ != wanted@,
        decreases names.len() - i,
    {
        if names[i] == *wanted {
            return Some(i);
        }
        i += 1;
    }
    None
}

} // verus!
