//! Counting inversions while sorting by merging.

use crate::sorted::{is_sorted, sorts};
use vstd::prelude::*;
use vstd::seq_lib::{lemma_multiset_commutative, to_multiset_remove};

verus! {

/// The values of `f` on the elements of `s`, added up.
pub open spec fn sum_over(s: Seq<u64>, f: spec_fn(u64) -> nat) -> nat
    decreases s.len(),
{
    if s.len() == 0 {
        0
    } else {
        sum_over(s.drop_last(), f) + f(s.last())
    }
}

/// How many elements of `a` are `x` or more.
pub open spec fn count_ge(a: Seq<u64>, x: u64) -> nat {
    sum_over(
        a,
        |v: u64|
            if v >= x {
                1nat
            } else {
                0nat
            },
    )
}

/// How many pairs of an element of `a` and an element of `b` have the
/// element of `a` no less than that of `b`.
pub open spec fn cross(a: Seq<u64>, b: Seq<u64>) -> nat {
    sum_over(b, |y: u64| count_ge(a, y))
}

/// The number of inversions of `s`: the pairs of positions of which the
/// earlier holds no less than the later.
pub open spec fn inversions(s: Seq<u64>) -> nat
    decreases s.len(),
{
    if s.len() == 0 {
        0
    } else {
        inversions(s.drop_last()) + count_ge(s.drop_last(), s.last())
    }
}

/// A sum is that over all elements but one, and that one's share.
pub proof fn lemma_sum_remove(s: Seq<u64>, k: int, f: spec_fn(u64) -> nat)
    requires
        0 <= k < s.len(),
    ensures
        sum_over(s, f) == sum_over(s.remove(k), f) + f(s[k]),
    decreases s.len(),
{
    if k == s.len() - 1 {
        assert(s.remove(k) =~= s.drop_last());
    } else {
        lemma_sum_remove(s.drop_last(), k, f);
        assert(s.remove(k).drop_last() =~= s.drop_last().remove(k));
        assert(s.remove(k).last() == s.last());
    }
}

/// A sum over the elements does not depend on their order.
pub proof fn lemma_sum_rearranged(s: Seq<u64>, t: Seq<u64>, f: spec_fn(u64) -> nat)
    requires
        s.to_multiset() == t.to_multiset(),
    ensures
        sum_over(s, f) == sum_over(t, f),
    decreases s.len(),
{
    s.to_multiset_ensures();
    t.to_multiset_ensures();
    if s.len() > 0 {
        let x = s.last();
        assert(s.contains(x));
        assert(s.to_multiset().count(x) > 0);
        assert(t.to_multiset().count(x) > 0);
        assert(t.contains(x));
        let k = choose|k: int| 0 <= k < t.len() && t[k] == x;
        to_multiset_remove(s, s.len() - 1);
        to_multiset_remove(t, k);
        assert(s.remove(s.len() - 1) =~= s.drop_last());
        lemma_sum_rearranged(s.drop_last(), t.remove(k), f);
        lemma_sum_remove(t, k, f);
    }
}

/// The sum over two sequences in a row is the sum of both.
pub proof fn lemma_sum_concat(a: Seq<u64>, b: Seq<u64>, f: spec_fn(u64) -> nat)
    ensures
        sum_over(a + b, f) == sum_over(a, f) + sum_over(b, f),
    decreases b.len(),
{
    if b.len() == 0 {
        assert(a + b =~= a);
    } else {
        assert((a + b).drop_last() =~= a + b.drop_last());
        lemma_sum_concat(a, b.drop_last(), f);
    }
}

/// Sums of functions that agree on the elements agree.
pub proof fn lemma_sum_agree(s: Seq<u64>, f: spec_fn(u64) -> nat, g: spec_fn(u64) -> nat)
    requires
        forall|i: int| 0 <= i < s.len() ==> f(#[trigger] s[i]) == g(s[i]),
    ensures
        sum_over(s, f) == sum_over(s, g),
    decreases s.len(),
{
    if s.len() > 0 {
        let front = s.drop_last();
        assert forall|i: int| 0 <= i < front.len() implies f(#[trigger] front[i]) == g(front[i]) by {
            assert(front[i] == s[i]);
        }
        lemma_sum_agree(front, f, g);
        assert(s.last() == s[s.len() - 1]);
    }
}

/// The inversions of two sequences in a row: those of each, and those across.
pub proof fn lemma_inversions_concat(a: Seq<u64>, b: Seq<u64>)
    ensures
        inversions(a + b) == inversions(a) + inversions(b) + cross(a, b),
    decreases b.len(),
{
    if b.len() == 0 {
        assert(a + b =~= a);
    } else {
        let front = b.drop_last();
        let y = b.last();
        assert((a + b).drop_last() =~= a + front);
        assert((a + b).last() == y);
        lemma_inversions_concat(a, front);
        lemma_sum_concat(
            a,
            front,
            |v: u64|
                if v >= y {
                    1nat
                } else {
                    0nat
                },
        );
    }
}

/// The inversions across do not depend on the order within either side.
pub proof fn lemma_cross_rearranged(a: Seq<u64>, b: Seq<u64>, c: Seq<u64>, d: Seq<u64>)
    requires
        a.to_multiset() == c.to_multiset(),
        b.to_multiset() == d.to_multiset(),
    ensures
        cross(a, b) == cross(c, d),
{
    lemma_sum_rearranged(b, d, |y: u64| count_ge(a, y));
    assert forall|i: int| 0 <= i < d.len() implies count_ge(a, #[trigger] d[i]) == count_ge(c, d[i]) by {
        let y = d[i];
        lemma_sum_rearranged(
            a,
            c,
            |v: u64|
                if v >= y {
                    1nat
                } else {
                    0nat
                },
        );
    }
    lemma_sum_agree(d, |y: u64| count_ge(a, y), |y: u64| count_ge(c, y));
}

/// In a sorted sequence of which the first `k` elements are less than `x`
/// and the others are not, all but `k` elements are `x` or more.
pub proof fn lemma_count_ge_sorted(a: Seq<u64>, x: u64, k: int)
    requires
        0 <= k <= a.len(),
        forall|i: int| 0 <= i < k ==> a[i] < x,
        forall|i: int| k <= i < a.len() ==> a[i] >= x,
    ensures
        count_ge(a, x) == a.len() - k,
    decreases a.len(),
{
    if a.len() > 0 {
        let front = a.drop_last();
        if k == a.len() {
            lemma_count_ge_sorted(front, x, k - 1);
        } else {
            lemma_count_ge_sorted(front, x, k);
        }
    }
}

/// No sequence has more inversions than pairs of positions.
pub proof fn lemma_inversions_bound(s: Seq<u64>)
    ensures
        2 * inversions(s) <= s.len() * (s.len() - 1),
    decreases s.len(),
{
    if s.len() > 0 {
        let front = s.drop_last();
        lemma_inversions_bound(front);
        lemma_count_ge_bound(front, s.last());
        assert(front.len() * (front.len() - 1) + 2 * front.len() == (front.len() + 1) * front.len())
            by (nonlinear_arith);
    }
}

/// No more elements are counted than there are.
pub proof fn lemma_count_ge_bound(a: Seq<u64>, x: u64)
    ensures
        count_ge(a, x) <= a.len(),
    decreases a.len(),
{
    if a.len() > 0 {
        lemma_count_ge_bound(a.drop_last(), x);
    }
}

/// The number of inversions of `xs`.
pub fn count_inversions(xs: Vec<u64>) -> (count: u128)
    ensures
        count == inversions(xs@),
{
    let mut xs = xs;
    sort_and_count_inversions_do(xs.as_mut_slice())
}

/// Sorts `xs` and returns the number of inversions that it had.
pub fn sort_and_count_inversions_do(xs: &mut [u64]) -> (count: u128)
    ensures
        sorts(old(xs)@, final(xs)@),
        count == inversions(old(xs)@),
    decreases old(xs)@.len(),
{
    let len = xs.len();
    let mid = len / 2;
    if len < 2 {
        proof {
            if len == 1 {
                let front = xs@.drop_last();
                assert(front.len() == 0);
                assert(inversions(front) == 0);
                assert(count_ge(front, xs@.last()) == 0);
            }
        }
        return 0;
    }
    let ghost whole = xs@;
    let (lower, upper) = xs.split_at_mut(mid);
    let ghost a = lower@;
    let ghost b = upper@;
    let left_inversions = sort_and_count_inversions_do(lower);
    let right_inversions = sort_and_count_inversions_do(upper);
    let ghost left = lower@;
    let ghost right = upper@;
    proof {
        assert(whole =~= a + b);
        lemma_inversions_concat(a, b);
        lemma_cross_rearranged(a, b, left, right);
        lemma_inversions_bound(whole);
        crate::quick::lemma_pairs_fit(len as nat);
        lemma_multiset_commutative(a, b);
        lemma_multiset_commutative(left, right);
        let none = Seq::<u64>::empty();
        assert(left.take(0) =~= none);
        assert(right.take(0) =~= none);
        assert(none + none =~= none);
        lemma_multiset_commutative(none, none);
    }
    let mut split_inversions: u128 = 0;
    let mut li: usize = 0;
    let mut ri: usize = mid;
    let mut res: Vec<u64> = Vec::with_capacity(len);
    while li < mid || ri < len
        invariant
            li <= mid <= ri <= len == xs@.len(),
            xs@ == left + right,
            left.len() == mid,
            is_sorted(left),
            is_sorted(right),
            res@.len() == li + (ri - mid),
            is_sorted(res@),
            res@.to_multiset() == left.take(li as int).to_multiset().add(
                right.take(ri - mid).to_multiset(),
            ),
            forall|k: int| 0 <= k < res@.len() && li < mid ==> res@[k] <= left[li as int],
            forall|k: int| 0 <= k < res@.len() && ri < len ==> res@[k] <= right[ri - mid],
            forall|k: int| 0 <= k < li && ri < len ==> left[k] < right[ri - mid],
            split_inversions == cross(left, right.take(ri - mid)),
            cross(left, right) <= u128::MAX,
        decreases (mid - li) + (len - ri),
    {
        let take_left = if ri >= len {
            true
        } else if li >= mid {
            false
        } else {
            xs[li] < xs[ri]
        };
        let ghost before = res@;
        if take_left {
            let x = xs[li];
            res.push(x);
            proof {
                assert(left[li as int] == x);
                assert(left.take(li + 1) =~= left.take(li as int).push(x));
                before.to_multiset_ensures();
                left.take(li as int).to_multiset_ensures();
                assert(res@.to_multiset() =~= left.take(li + 1).to_multiset().add(
                    right.take(ri - mid).to_multiset(),
                ));
                assert forall|k: int| 0 <= k < res@.len() && li + 1 < mid implies res@[k] <= left[li
                    + 1] by {
                    assert(left[li as int] <= left[li + 1]);
                }
            }
            li += 1;
        } else {
            let y = xs[ri];
            res.push(y);
            proof {
                assert(right[ri - mid] == y);
                let longer = right.take(ri - mid + 1);
                assert(longer =~= right.take(ri - mid).push(y));
                assert(longer.drop_last() =~= right.take(ri - mid));
                before.to_multiset_ensures();
                right.take(ri - mid).to_multiset_ensures();
                assert(res@.to_multiset() =~= left.take(li as int).to_multiset().add(
                    longer.to_multiset(),
                ));
                assert forall|k: int| 0 <= k < res@.len() && ri + 1 < len implies res@[k] <= right[ri
                    + 1 - mid] by {
                    assert(right[ri - mid] <= right[ri + 1 - mid]);
                }
                assert forall|k: int| 0 <= k < li && ri + 1 < len implies left[k] < right[ri + 1
                    - mid] by {
                    assert(right[ri - mid] <= right[ri + 1 - mid]);
                }
                assert forall|i: int| li <= i < left.len() implies left[i] >= y by {
                    assert(left[li as int] <= left[i]);
                }
                lemma_count_ge_sorted(left, y, li as int);
                lemma_cross_grows(left, right, ri - mid + 1);
            }
            split_inversions += (mid - li) as u128;
            ri += 1;
        }
    }
    proof {
        assert(left.take(mid as int) =~= left);
        assert(right.take(len - mid) =~= right);
    }
    let mut k: usize = 0;
    while k < len
        invariant
            k <= len == xs@.len() == res@.len(),
            forall|i: int| 0 <= i < k ==> xs@[i] == res@[i],
        decreases len - k,
    {
        xs[k] = res[k];
        k += 1;
    }
    assert(xs@ =~= res@);
    left_inversions + right_inversions + split_inversions
}

/// The inversions across grow with the second sequence.
pub proof fn lemma_cross_grows(a: Seq<u64>, b: Seq<u64>, k: int)
    requires
        0 <= k <= b.len(),
    ensures
        cross(a, b.take(k)) <= cross(a, b),
    decreases b.len() - k,
{
    if k < b.len() {
        assert(b.take(k + 1).drop_last() =~= b.take(k));
        lemma_cross_grows(a, b, k + 1);
    } else {
        assert(b.take(k) =~= b);
    }
}

} // verus!
