//! Quicksort that counts its comparisons, with three ways to pick the pivot.

use crate::sorted::{is_sorted, lemma_swap_keeps_elements, sorts, swapped};
use vstd::prelude::*;
use vstd::seq_lib::lemma_multiset_commutative;

verus! {

/// Which element of a slice becomes the pivot.
#[derive(Debug, Clone, Copy, PartialEq, Eq, Structural)]
pub enum Pivot {
    /// The first element.
    First,
    /// The last element.
    Last,
    /// The median of the first, the middle and the last element; the
    /// middle of an even number of elements is the earlier of the two.
    Median,
}

/// One for the median rule, zero for the two rules that need no sorting
/// of their own.
pub open spec fn pivot_rank(pivot: Pivot) -> nat {
    match pivot {
        Pivot::Median => 1,
        _ => 0,
    }
}

/// Sorts `input` and returns the number of comparisons that were counted:
/// one less than the length for every slice of two or more that was
/// partitioned, which is never more than `n * (n - 1) / 2` for `n` elements.
pub fn quick_sort(input: &mut [u64], pivot: Pivot) -> (comparisons: u128)
    ensures
        sorts(old(input)@, final(input)@),
        comparisons == comparisons_of(old(input)@, pivot),
        2 * comparisons <= old(input)@.len() * (old(input)@.len() - 1),
        old(input)@.len() >= 2 ==> comparisons >= old(input)@.len() - 1,
    decreases pivot_rank(pivot), old(input)@.len(), 3nat,
{
    let mut comparisons: u128 = 0;
    let len = input.len();
    proof {
        lemma_pairs_fit(len as nat);
    }
    quick_sort_inner(input, &mut comparisons, pivot);
    comparisons
}

/// Twice the number of pairs among `n` elements fits a `u128` with room to spare.
pub proof fn lemma_pairs_fit(n: nat)
    requires
        n <= usize::MAX,
    ensures
        0 <= n * (n - 1) <= 0xffff_ffff_ffff_ffff_ffff_ffff_ffff_ffff,
{
    assert(0 <= n * (n - 1) <= 0xffff_ffff_ffff_ffff * 0xffff_ffff_ffff_ffff) by (nonlinear_arith)
        requires
            0 <= n <= 0xffff_ffff_ffff_ffff,
    ;
}

/// The pairs within two parts and the comparisons against a pivot are
/// among the pairs of the whole.
pub proof fn lemma_pairs_split(a: nat, b: nat)
    ensures
        2 * (a + b) + a * (a - 1) + b * (b - 1) <= (a + b + 1) * (a + b),
{
    assert(2 * (a + b) + a * (a - 1) + b * (b - 1) <= (a + b + 1) * (a + b)) by (nonlinear_arith);
}

/// What holds of every element of a sequence holds of every element of a
/// rearrangement of it.
pub proof fn lemma_rearranged_below(s: Seq<u64>, t: Seq<u64>, bound: u64)
    requires
        s.to_multiset() == t.to_multiset(),
        forall|i: int| 0 <= i < s.len() ==> s[i] < bound,
    ensures
        forall|i: int| 0 <= i < t.len() ==> t[i] < bound,
{
    s.to_multiset_ensures();
    t.to_multiset_ensures();
    assert forall|i: int| 0 <= i < t.len() implies t[i] < bound by {
        assert(t.contains(t[i]));
        assert(t.to_multiset().count(t[i]) > 0);
        assert(s.to_multiset().count(t[i]) > 0);
        assert(s.contains(t[i]));
        let k = choose|k: int| 0 <= k < s.len() && s[k] == t[i];
    }
}

/// A lower bound on every element of a sequence bounds every element of a
/// rearrangement of it.
pub proof fn lemma_rearranged_above(s: Seq<u64>, t: Seq<u64>, bound: u64)
    requires
        s.to_multiset() == t.to_multiset(),
        forall|i: int| 0 <= i < s.len() ==> s[i] >= bound,
    ensures
        forall|i: int| 0 <= i < t.len() ==> t[i] >= bound,
{
    s.to_multiset_ensures();
    t.to_multiset_ensures();
    assert forall|i: int| 0 <= i < t.len() implies t[i] >= bound by {
        assert(t.contains(t[i]));
        assert(t.to_multiset().count(t[i]) > 0);
        assert(s.to_multiset().count(t[i]) > 0);
        assert(s.contains(t[i]));
        let k = choose|k: int| 0 <= k < s.len() && s[k] == t[i];
    }
}

/// Exchanges two elements of a slice.
pub fn swap_at(input: &mut [u64], i: usize, j: usize)
    requires
        i < old(input)@.len(),
        j < old(input)@.len(),
    ensures
        final(input)@ == swapped(old(input)@, i as int, j as int),
        final(input)@.len() == old(input)@.len(),
        final(input)@.to_multiset() == old(input)@.to_multiset(),
{
    let a = input[i];
    let b = input[j];
    input[i] = b;
    input[j] = a;
    proof {
        assert(input@ =~= swapped(old(input)@, i as int, j as int));
        lemma_swap_keeps_elements(old(input)@, i as int, j as int);
    }
}

/// The three values in rising order: a sorting network of three exchanges.
pub open spec fn sorted3(a: u64, b: u64, c: u64) -> Seq<u64> {
    let s0 = seq![a, b, c];
    let s1 = if s0[0] > s0[1] {
        swapped(s0, 0, 1)
    } else {
        s0
    };
    let s2 = if s1[1] > s1[2] {
        swapped(s1, 1, 2)
    } else {
        s1
    };
    if s2[0] > s2[1] {
        swapped(s2, 0, 1)
    } else {
        s2
    }
}

/// The middle one of three values.
pub open spec fn median3(a: u64, b: u64, c: u64) -> u64 {
    sorted3(a, b, c)[1]
}

/// The network sorts.
pub proof fn lemma_sorted3(a: u64, b: u64, c: u64)
    ensures
        sorts(seq![a, b, c], sorted3(a, b, c)),
{
    let s0 = seq![a, b, c];
    let s1 = if s0[0] > s0[1] {
        swapped(s0, 0, 1)
    } else {
        s0
    };
    let s2 = if s1[1] > s1[2] {
        swapped(s1, 1, 2)
    } else {
        s1
    };
    lemma_swap_keeps_elements(s0, 0, 1);
    lemma_swap_keeps_elements(s1, 1, 2);
    lemma_swap_keeps_elements(s2, 0, 1);
}

/// The middle index of `len` elements, the earlier of two middles.
pub open spec fn middle(len: int) -> int {
    if len % 2 == 0 {
        len / 2 - 1
    } else {
        len / 2
    }
}

/// The index of the pivot that the rule picks among `input`: for the
/// median rule the first of the first, the middle and the last element to
/// hold the median of the three.
pub open spec fn pivot_index(input: Seq<u64>, pivot: Pivot) -> int {
    match pivot {
        Pivot::First => 0,
        Pivot::Last => input.len() - 1,
        Pivot::Median => {
            let m = median3(input[0], input[middle(input.len() as int)], input[input.len() - 1]);
            if m == input[0] {
                0
            } else if m == input[middle(input.len() as int)] {
                middle(input.len() as int)
            } else {
                input.len() - 1
            }
        },
    }
}

/// The slice once the elements from `i` up to `end` have been sifted,
/// where `last` is the place of the last element so far that is less than
/// the pivot at the front: an element less than the pivot changes places
/// with the one after `last`.
pub open spec fn sifted(s: Seq<u64>, i: int, last: int, end: int) -> (Seq<u64>, int)
    decreases end - i,
{
    if i < 1 || i >= end {
        (s, last)
    } else if s[i] < s[0] {
        sifted(swapped(s, i, last + 1), i + 1, last + 1, end)
    } else {
        sifted(s, i + 1, last, end)
    }
}

/// The slice partitioned round the pivot that the rule picks, and the
/// place where the pivot ends up: the pivot goes to the front, the rest is
/// sifted, and the pivot changes places with the last element less than it.
pub open spec fn parted(s: Seq<u64>, pivot: Pivot) -> (Seq<u64>, int) {
    let front = swapped(s, 0, pivot_index(s, pivot));
    let (sift, last) = sifted(front, 1, 0, s.len() as int);
    (swapped(sift, 0, last), last)
}

/// The comparisons that sorting `s` counts, as far as `fuel` levels down.
pub open spec fn counted(s: Seq<u64>, pivot: Pivot, fuel: nat) -> nat
    decreases fuel,
{
    if fuel == 0 || s.len() < 2 {
        0
    } else {
        let (t, last) = parted(s, pivot);
        (s.len() - 1) as nat + counted(t.subrange(0, last), pivot, (fuel - 1) as nat) + counted(
            t.subrange(last + 1, s.len() as int),
            pivot,
            (fuel - 1) as nat,
        )
    }
}

/// The comparisons that sorting `s` counts: one less than the length for
/// the partition of `s`, and those of the part before the pivot and of
/// the part after it.
pub open spec fn comparisons_of(s: Seq<u64>, pivot: Pivot) -> nat {
    counted(s, pivot, s.len())
}

/// Sifting keeps the length, and `last` among the places looked at.
pub proof fn lemma_sifted(s: Seq<u64>, i: int, last: int)
    requires
        1 <= i <= s.len(),
        0 <= last < i,
    ensures
        sifted(s, i, last, s.len() as int).0.len() == s.len(),
        last <= sifted(s, i, last, s.len() as int).1 < s.len(),
    decreases s.len() - i,
{
    if i < s.len() {
        if s[i] < s[0] {
            lemma_sifted(swapped(s, i, last + 1), i + 1, last + 1);
        } else {
            lemma_sifted(s, i + 1, last);
        }
    }
}

/// The partition keeps the length and puts the pivot inside.
pub proof fn lemma_parted(s: Seq<u64>, pivot: Pivot)
    requires
        s.len() >= 2,
    ensures
        parted(s, pivot).0.len() == s.len(),
        0 <= parted(s, pivot).1 < s.len(),
{
    let front = swapped(s, 0, pivot_index(s, pivot));
    lemma_sifted(front, 1, 0);
}

/// Levels beyond the length of the slice count nothing more.
pub proof fn lemma_counted(s: Seq<u64>, pivot: Pivot, fuel: nat)
    requires
        fuel >= s.len(),
    ensures
        counted(s, pivot, fuel) == comparisons_of(s, pivot),
    decreases fuel,
{
    if s.len() >= 2 {
        lemma_parted(s, pivot);
        let (t, last) = parted(s, pivot);
        let left = t.subrange(0, last);
        let right = t.subrange(last + 1, s.len() as int);
        lemma_counted(left, pivot, (fuel - 1) as nat);
        lemma_counted(right, pivot, (fuel - 1) as nat);
        lemma_counted(left, pivot, (s.len() - 1) as nat);
        lemma_counted(right, pivot, (s.len() - 1) as nat);
    }
}

/// The index of the pivot that the rule picks.
pub fn choose_pivot(input: &[u64], pivot: Pivot) -> (index: usize)
    requires
        input@.len() >= 2,
    ensures
        index < input@.len(),
        index == pivot_index(input@, pivot),
    decreases pivot_rank(pivot), input@.len(), 0nat,
{
    let len = input.len();
    match pivot {
        Pivot::First => 0,
        Pivot::Last => len - 1,
        Pivot::Median => {
            let first = input[0];
            let last = input[len - 1];
            let mid_i = if len % 2 == 0 {
                len / 2 - 1
            } else {
                len / 2
            };
            let mid = input[mid_i];
            let mut candidates = vec![first, mid, last];
            quick_sort(candidates.as_mut_slice(), Pivot::First);
            proof {
                lemma_sorted3(first, mid, last);
                crate::sorted::lemma_sorted_order_unique(
                    seq![first, mid, last],
                    candidates@,
                    sorted3(first, mid, last),
                );
            }
            if candidates[1] == first {
                0
            } else if candidates[1] == mid {
                mid_i
            } else {
                len - 1
            }
        },
    }
}

/// Partitions `input` round the pivot that the rule picks, and returns the
/// place where the pivot ends up: what is less than the pivot comes before
/// it, what is not comes after it.
pub fn partition(input: &mut [u64], pivot: Pivot) -> (last: usize)
    requires
        old(input)@.len() >= 2,
    ensures
        (final(input)@, last as int) == parted(old(input)@, pivot),
        last < final(input)@.len() == old(input)@.len(),
        final(input)@.to_multiset() == old(input)@.to_multiset(),
        forall|k: int| 0 <= k < last ==> #[trigger] final(input)@[k] < final(input)@[last as int],
        forall|k: int| last < k < final(input)@.len() ==> #[trigger] final(input)@[k] >= final(input)@[last as int],
    decreases pivot_rank(pivot), old(input)@.len(), 1nat,
{
    let len = input.len();
    let pivot_index = choose_pivot(input, pivot);
    swap_at(input, 0, pivot_index);
    let ghost front = input@;
    let mut last_smaller: usize = 0;
    let mut i: usize = 1;
    while i < len
        invariant
            1 <= i <= len == input@.len(),
            last_smaller < i,
            sifted(front, 1, 0, len as int) == sifted(input@, i as int, last_smaller as int, len as int),
            input@.to_multiset() == old(input)@.to_multiset(),
            forall|k: int| 1 <= k <= last_smaller ==> #[trigger] input@[k] < input@[0],
            forall|k: int| last_smaller < k < i ==> #[trigger] input@[k] >= input@[0],
        decreases len - i,
    {
        if input[i] < input[0] {
            last_smaller += 1;
            swap_at(input, i, last_smaller);
        }
        i += 1;
    }
    swap_at(input, 0, last_smaller);
    last_smaller
}

/// Sorts `input` and adds to `comparisons` one less than the length for
/// every slice of two or more that is partitioned.
pub fn quick_sort_inner(input: &mut [u64], comparisons: &mut u128, pivot: Pivot)
    requires
        2 * *old(comparisons) + old(input)@.len() * (old(input)@.len() - 1) <= u128::MAX,
    ensures
        sorts(old(input)@, final(input)@),
        *final(comparisons) == *old(comparisons) + comparisons_of(old(input)@, pivot),
        2 * (*final(comparisons) - *old(comparisons)) <= old(input)@.len() * (old(input)@.len() - 1),
        old(input)@.len() >= 2 ==> *final(comparisons) - *old(comparisons) >= old(input)@.len() - 1,
    decreases pivot_rank(pivot), old(input)@.len(), 2nat,
{
    let len = input.len();
    if len < 2 {
        assert(len * (len - 1) == 0) by (nonlinear_arith)
            requires
                0 <= len < 2,
        ;
        return;
    }
    let last_smaller = partition(input, pivot);
    let ghost parted = input@;
    let ghost x = parted[last_smaller as int];
    proof {
        lemma_counted(parted.subrange(0, last_smaller as int), pivot, (len - 1) as nat);
        lemma_counted(parted.subrange(last_smaller + 1, len as int), pivot, (len - 1) as nat);
        lemma_pairs_split(last_smaller as nat, (len - 1 - last_smaller) as nat);
        assert((last_smaller + (len - 1 - last_smaller) + 1) * (last_smaller + (len - 1
            - last_smaller)) == len * (len - 1)) by (nonlinear_arith);
        assert(len * (len - 1) >= 2 * (len - 1)) by (nonlinear_arith)
            requires
                len >= 2,
        ;
    }
    *comparisons += (len - 1) as u128;
    let (left, rest) = input.split_at_mut(last_smaller);
    let (middle, right) = rest.split_at_mut(1);
    let ghost before_left = left@;
    let ghost before_right = right@;
    proof {
        assert(before_left =~= parted.subrange(0, last_smaller as int));
        assert(before_right =~= parted.subrange(last_smaller + 1, len as int));
        assert(middle@ =~= seq![x]);
        assert(before_right.len() * (before_right.len() - 1) >= 0) by (nonlinear_arith)
            requires
                before_right.len() >= 0,
        ;
        assert(before_left.len() * (before_left.len() - 1) >= 0) by (nonlinear_arith)
            requires
                before_left.len() >= 0,
        ;
    }
    quick_sort_inner(left, comparisons, pivot);
    quick_sort_inner(right, comparisons, pivot);
    let ghost after_left = left@;
    let ghost after_right = right@;
    proof {
        assert(input@ =~= after_left + seq![x] + after_right);
        lemma_joined_sorted(parted, after_left, x, after_right, last_smaller as int);
    }
}

/// Two sorted parts with the pivot between them, the first a
/// rearrangement of what was less than the pivot and the second of what
/// was not, sort the whole.
pub proof fn lemma_joined_sorted(parted: Seq<u64>, left: Seq<u64>, x: u64, right: Seq<u64>, last: int)
    requires
        0 <= last < parted.len(),
        parted[last] == x,
        forall|k: int| 0 <= k < last ==> #[trigger] parted[k] < x,
        forall|k: int| last < k < parted.len() ==> #[trigger] parted[k] >= x,
        sorts(parted.subrange(0, last), left),
        sorts(parted.subrange(last + 1, parted.len() as int), right),
    ensures
        is_sorted(left + seq![x] + right),
        (left + seq![x] + right).len() == parted.len(),
        (left + seq![x] + right).to_multiset() == parted.to_multiset(),
{
    let before_left = parted.subrange(0, last);
    let before_right = parted.subrange(last + 1, parted.len() as int);
    assert(parted =~= before_left + seq![x] + before_right);
    lemma_rearranged_below(before_left, left, x);
    lemma_rearranged_above(before_right, right, x);
    let sorted = left + seq![x] + right;
    lemma_multiset_commutative(before_left, seq![x]);
    lemma_multiset_commutative(before_left + seq![x], before_right);
    lemma_multiset_commutative(left, seq![x]);
    lemma_multiset_commutative(left + seq![x], right);
    assert forall|a: int, b: int| 0 <= a <= b < sorted.len() implies sorted[a] <= sorted[b] by {
        let n = left.len();
        if b < n {
            assert(left[a] <= left[b]);
        } else if a > n {
            assert(right[a - n - 1] <= right[b - n - 1]);
        }
    }
}

} // verus!
