//! What it means to sort.

use vstd::prelude::*;
use vstd::seq_lib::to_multiset_update;

verus! {

/// No element is greater than a later one.
pub open spec fn is_sorted(s: Seq<u64>) -> bool {
    forall|i: int, j: int| 0 <= i <= j < s.len() ==> s[i] <= s[j]
}

/// `t` holds the elements of `s`, each as often, in an order that is sorted.
pub open spec fn sorts(s: Seq<u64>, t: Seq<u64>) -> bool {
    is_sorted(t) && t.len() == s.len() && t.to_multiset() == s.to_multiset()
}

/// `s` with the elements at `i` and `j` exchanged.
pub open spec fn swapped(s: Seq<u64>, i: int, j: int) -> Seq<u64> {
    s.update(i, s[j]).update(j, s[i])
}

/// Exchanging two elements changes no count.
pub proof fn lemma_swap_keeps_elements(s: Seq<u64>, i: int, j: int)
    requires
        0 <= i < s.len(),
        0 <= j < s.len(),
    ensures
        swapped(s, i, j).to_multiset() == s.to_multiset(),
        swapped(s, i, j).len() == s.len(),
{
    broadcast use vstd::multiset::group_multiset_axioms;

    let mid = s.update(i, s[j]);
    s.to_multiset_ensures();
    assert(s.contains(s[i]) && s.contains(s[j]));
    to_multiset_update(s, i, s[j]);
    to_multiset_update(mid, j, s[i]);
    if i == j {
        assert(swapped(s, i, j) =~= s);
    } else {
        assert(mid[j] == s[j]);
        assert(swapped(s, i, j).to_multiset() =~= s.to_multiset());
    }
}

/// A sequence has one sorted order only.
pub proof fn lemma_sorted_order_unique(s: Seq<u64>, a: Seq<u64>, b: Seq<u64>)
    requires
        sorts(s, a),
        sorts(s, b),
    ensures
        a == b,
{
    let leq = |x: u64, y: u64| x <= y;
    assert(vstd::relations::sorted_by(a, leq));
    assert(vstd::relations::sorted_by(b, leq));
    assert(vstd::relations::total_ordering(leq));
    vstd::seq_lib::lemma_sorted_unique(a, b, leq);
}

} // verus!
