//! Sorting by selection: the least of what is left goes to the front.

use crate::sorted::{lemma_swap_keeps_elements, sorts, swapped};
use vstd::prelude::*;

verus! {

/// Sorting in place by selection.
pub trait SelectSortable {
    /// The elements, in their order.
    spec fn items(&self) -> Seq<u64>;

    /// Sorts the elements in place.
    fn select(&mut self)
        ensures
            sorts(old(self).items(), final(self).items()),
    ;
}

impl SelectSortable for Vec<u64> {
    open spec fn items(&self) -> Seq<u64> {
        self@
    }

    fn select(&mut self) {
        let len = self.len();
        let mut start: usize = 0;
        while start < len
            invariant
                start <= len == self.len(),
                self@.to_multiset() == old(self)@.to_multiset(),
                forall|i: int, j: int| 0 <= i <= j < start ==> self@[i] <= self@[j],
                forall|i: int, j: int| 0 <= i < start <= j < len ==> self@[i] <= self@[j],
            decreases len - start,
        {
            let mut min = (self[start], start);
            let mut i = start;
            while i < len
                invariant
                    start <= i <= len == self.len(),
                    start <= min.1 < len,
                    min.0 == self@[min.1 as int],
                    forall|k: int| start <= k < i ==> min.0 <= self@[k],
                decreases len - i,
            {
                if self[i] < min.0 {
                    min = (self[i], i);
                }
                i += 1;
            }
            let ghost before = self@;
            let first = self[start];
            self[start] = min.0;
            self[min.1] = first;
            proof {
                assert(self@ =~= swapped(before, start as int, min.1 as int));
                lemma_swap_keeps_elements(before, start as int, min.1 as int);
            }
            start += 1;
        }
    }
}

} // verus!
