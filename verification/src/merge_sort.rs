//! Sorting by merging sorted halves.

use crate::sorted::{is_sorted, sorts};
use vstd::prelude::*;
use vstd::seq_lib::lemma_multiset_commutative;

verus! {

/// Sorting in place by merging.
pub trait MergeSortable {
    /// The elements, in their order.
    spec fn elements(&self) -> Seq<u64>;

    /// Sorts the elements in place.
    fn merge_sort(&mut self)
        ensures
            sorts(old(self).elements(), final(self).elements()),
    ;
}

impl MergeSortable for Vec<u64> {
    open spec fn elements(&self) -> Seq<u64> {
        self@
    }

    fn merge_sort(&mut self) {
        merge_sort_v64_do(self.as_mut_slice());
    }
}

/// Sorts a slice: each half by itself, then both merged.
pub fn merge_sort_v64_do(s_xs: &mut [u64])
    ensures
        sorts(old(s_xs)@, final(s_xs)@),
    decreases old(s_xs)@.len(),
{
    let len = s_xs.len();
    if len < 2 {
        return;
    }
    let mid = len / 2;
    let ghost whole = s_xs@;
    let (left, right) = s_xs.split_at_mut(mid);
    merge_sort_v64_do(left);
    merge_sort_v64_do(right);
    proof {
        let a = whole.subrange(0, mid as int);
        let b = whole.subrange(mid as int, len as int);
        assert(whole =~= a + b);
        lemma_multiset_commutative(a, b);
        lemma_multiset_commutative(left@, right@);
        assert((left@ + right@).subrange(0, mid as int) =~= left@);
        assert((left@ + right@).subrange(mid as int, len as int) =~= right@);
    }
    merge_v64_do(s_xs)
}

/// Merges the two halves of a slice, each sorted, into one sorted slice.
/// The first half is the shorter one where the length is odd.
pub fn merge_v64_do(s_xs: &mut [u64])
    requires
        is_sorted(old(s_xs)@.subrange(0, old(s_xs)@.len() as int / 2)),
        is_sorted(old(s_xs)@.subrange(old(s_xs)@.len() as int / 2, old(s_xs)@.len() as int)),
    ensures
        sorts(old(s_xs)@, final(s_xs)@),
{
    let len = s_xs.len();
    let mid = len / 2;
    let ghost left = s_xs@.subrange(0, mid as int);
    let ghost right = s_xs@.subrange(mid as int, len as int);
    let mut merged: Vec<u64> = Vec::new();
    let mut li: usize = 0;
    let mut ri: usize = mid;
    proof {
        let none = Seq::<u64>::empty();
        assert(left.take(0) =~= none);
        assert(right.take(0) =~= none);
        assert(merged@ =~= none);
        assert(none + none =~= none);
        lemma_multiset_commutative(none, none);
    }
    while li < mid || ri < len
        invariant
            li <= mid <= ri <= len == s_xs@.len(),
            s_xs@ == old(s_xs)@,
            mid == len / 2,
            left == s_xs@.subrange(0, mid as int),
            right == s_xs@.subrange(mid as int, len as int),
            is_sorted(left),
            is_sorted(right),
            merged@.len() == li + (ri - mid),
            is_sorted(merged@),
            merged@.to_multiset() == left.take(li as int).to_multiset().add(
                right.take(ri - mid).to_multiset(),
            ),
            forall|k: int| 0 <= k < merged@.len() && li < mid ==> merged@[k] <= left[li as int],
            forall|k: int| 0 <= k < merged@.len() && ri < len ==> merged@[k] <= right[ri - mid],
        decreases (mid - li) + (len - ri),
    {
        let take_left = if li >= mid {
            false
        } else if ri >= len {
            true
        } else {
            s_xs[li] <= s_xs[ri]
        };
        let ghost before = merged@;
        if take_left {
            let x = s_xs[li];
            merged.push(x);
            proof {
                assert(left[li as int] == x);
                assert(left.take(li + 1) =~= left.take(li as int).push(x));
                before.to_multiset_ensures();
                left.take(li as int).to_multiset_ensures();
                assert(merged@.to_multiset() =~= left.take(li + 1).to_multiset().add(
                    right.take(ri - mid).to_multiset(),
                ));
                assert forall|k: int| 0 <= k < merged@.len() && li + 1 < mid implies merged@[k]
                    <= left[li + 1] by {
                    assert(left[li as int] <= left[li + 1]);
                }
            }
            li += 1;
        } else {
            let x = s_xs[ri];
            merged.push(x);
            proof {
                assert(right[ri - mid] == x);
                assert(right.take(ri - mid + 1) =~= right.take(ri - mid).push(x));
                before.to_multiset_ensures();
                right.take(ri - mid).to_multiset_ensures();
                assert(merged@.to_multiset() =~= left.take(li as int).to_multiset().add(
                    right.take(ri - mid + 1).to_multiset(),
                ));
                assert forall|k: int| 0 <= k < merged@.len() && ri + 1 < len implies merged@[k]
                    <= right[ri + 1 - mid] by {
                    assert(right[ri - mid] <= right[ri + 1 - mid]);
                }
            }
            ri += 1;
        }
    }
    proof {
        assert(left.take(mid as int) =~= left);
        assert(right.take(len - mid) =~= right);
        assert(s_xs@ =~= left + right);
        lemma_multiset_commutative(left, right);
    }
    let mut k: usize = 0;
    while k < len
        invariant
            k <= len == s_xs@.len() == merged@.len(),
            forall|i: int| 0 <= i < k ==> s_xs@[i] == merged@[i],
        decreases len - k,
    {
        s_xs[k] = merged[k];
        k += 1;
    }
    assert(s_xs@ =~= merged@);
}

} // verus!
