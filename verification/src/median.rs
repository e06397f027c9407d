//! The running median of a stream of numbers, kept in two halves: the lower
//! half, of which the greatest is at hand, and the upper half, of which the
//! least is.

use vstd::prelude::*;
use vstd::seq_lib::{lemma_multiset_commutative, to_multiset_insert, to_multiset_remove};

verus! {

/// No element is greater than a later one.
pub open spec fn ascending(s: Seq<i64>) -> bool {
    forall|i: int, j: int| 0 <= i <= j < s.len() ==> s[i] <= s[j]
}

/// `t` is `s` in ascending order.
pub open spec fn ranks(s: Seq<i64>, t: Seq<i64>) -> bool {
    ascending(t) && t.len() == s.len() && t.to_multiset() == s.to_multiset()
}

/// A sequence has one ascending order only.
pub proof fn lemma_ranks_unique(s: Seq<i64>, a: Seq<i64>, b: Seq<i64>)
    requires
        ranks(s, a),
        ranks(s, b),
    ensures
        a == b,
{
    let leq = |x: i64, y: i64| x <= y;
    assert(vstd::relations::sorted_by(a, leq));
    assert(vstd::relations::sorted_by(b, leq));
    assert(vstd::relations::total_ordering(leq));
    vstd::seq_lib::lemma_sorted_unique(a, b, leq);
}

/// Numbers kept in ascending order.
pub struct Heap {
    items: Vec<i64>,
}

impl View for Heap {
    type V = Seq<i64>;

    closed spec fn view(&self) -> Seq<i64> {
        self.items@
    }
}

impl Heap {
    /// The numbers are in ascending order.
    pub closed spec fn wf(&self) -> bool {
        ascending(self.items@)
    }

    /// No numbers.
    pub fn new() -> (heap: Heap)
        ensures
            heap.wf(),
            heap@ == Seq::<i64>::empty(),
    {
        Heap { items: Vec::new() }
    }

    /// How many numbers are kept.
    pub fn len(&self) -> (n: usize)
        ensures
            n == self@.len(),
    {
        self.items.len()
    }

    /// Adds a number in its place.
    pub fn push(&mut self, num: i64)
        requires
            old(self).wf(),
        ensures
            final(self).wf(),
            ascending(final(self)@),
            put_in(old(self)@, final(self)@, num),
    {
        let mut at: usize = 0;
        while at < self.items.len() && self.items[at] <= num
            invariant
                at <= self.items@.len(),
                self.items@ == old(self).items@,
                forall|k: int| 0 <= k < at ==> self.items@[k] <= num,
            decreases self.items@.len() - at,
        {
            at += 1;
        }
        self.items.insert(at, num);
        proof {
            let s = old(self).items@;
            let t = self.items@;
            assert forall|i: int, j: int| 0 <= i <= j < t.len() implies t[i] <= t[j] by {
                if i < at && j > at {
                    assert(s[i] <= s[j - 1]);
                } else if i < at && j == at {
                } else if i == at && j > at {
                    assert(s[at as int] <= s[j - 1]);
                } else if i > at {
                    assert(s[i - 1] <= s[j - 1]);
                } else if j < at {
                    assert(s[i] <= s[j]);
                }
            }
            assert(self@ == old(self)@.insert(at as int, num));
        }
    }

    /// The greatest number.
    pub fn peek_max(&self) -> (max: i64)
        requires
            self@.len() > 0,
        ensures
            max == self@.last(),
    {
        self.items[self.items.len() - 1]
    }

    /// The least number.
    pub fn peek_min(&self) -> (min: i64)
        requires
            self@.len() > 0,
        ensures
            min == self@.first(),
    {
        self.items[0]
    }

    /// Takes the greatest number out.
    pub fn pop_max(&mut self) -> (max: i64)
        requires
            old(self).wf(),
            old(self)@.len() > 0,
        ensures
            final(self).wf(),
            max == old(self)@.last(),
            final(self)@ == old(self)@.drop_last(),
    {
        let max = self.items.pop().unwrap();
        assert(self.items@ =~= old(self).items@.drop_last());
        max
    }

    /// Takes the least number out.
    pub fn pop_min(&mut self) -> (min: i64)
        requires
            old(self).wf(),
            old(self)@.len() > 0,
        ensures
            final(self).wf(),
            min == old(self)@.first(),
            final(self)@ == old(self)@.drop_first(),
    {
        let min = self.items.remove(0);
        assert(self.items@ =~= old(self).items@.drop_first());
        min
    }
}

/// The two halves of the numbers seen so far.
pub struct Medians {
    low: Heap,
    high: Heap,
}

impl View for Medians {
    type V = Seq<i64>;

    /// The numbers seen so far, in ascending order.
    closed spec fn view(&self) -> Seq<i64> {
        self.low@ + self.high@
    }
}

/// The position of the median among `n` numbers in ascending order: the
/// middle, or the earlier of the two middles.
pub open spec fn median_at(n: int) -> int {
    (n + 1) / 2 - 1
}

impl Medians {
    /// Both halves are in order, no number of the lower half is greater
    /// than one of the upper half, and the halves differ by one in size
    /// at most.
    pub closed spec fn wf(&self) -> bool {
        &&& self.low.wf()
        &&& self.high.wf()
        &&& ascending(self.low@ + self.high@)
        &&& self.low@.len() <= self.high@.len() + 1
        &&& self.high@.len() <= self.low@.len() + 1
        &&& self.low@.len() == 0 ==> self.high@.len() == 0
    }

    /// No numbers seen.
    pub fn new() -> (fresh: Medians)
        ensures
            fresh.wf(),
            fresh@ == Seq::<i64>::empty(),
    {
        let fresh = Medians { low: Heap::new(), high: Heap::new() };
        assert(fresh@ =~= Seq::<i64>::empty());
        fresh
    }

    /// Takes in a number and returns the median of all numbers so far.
    pub fn push(&mut self, num: i64) -> (median: i64)
        requires
            old(self).wf(),
            old(self)@.len() < usize::MAX - 1,
        ensures
            final(self).wf(),
            ascending(final(self)@),
            final(self)@.len() == old(self)@.len() + 1,
            final(self)@.to_multiset() == old(self)@.to_multiset().insert(num),
            median == final(self)@[median_at(final(self)@.len() as int)],
    {
        let low_len = self.low.len();
        let high_len = self.high.len();
        let ghost low0 = self.low@;
        let ghost high0 = self.high@;
        if low_len == 0 || num < self.low.peek_max() {
            self.low.push(num);
            proof {
                lemma_put_low(low0, high0, self.low@, num);
            }
            if high_len < low_len {
                let ghost low1 = self.low@;
                let moved = self.low.pop_max();
                self.high.push(moved);
                proof {
                    lemma_move_up(low1, high0, self.high@);
                }
            }
        } else {
            self.high.push(num);
            proof {
                lemma_put_high(low0, high0, self.high@, num);
            }
            if low_len < high_len {
                let ghost high1 = self.high@;
                let moved = self.high.pop_min();
                self.low.push(moved);
                proof {
                    lemma_move_down(low0, high1, self.low@);
                }
            }
        }
        let total = self.low.len() + self.high.len();
        let k = if total % 2 == 0 {
            total / 2
        } else {
            (total + 1) / 2
        };
        if self.low.len() >= k {
            self.low.peek_max()
        } else {
            self.high.peek_min()
        }
    }
}

/// `t` is `s` with `x` put in somewhere.
pub open spec fn put_in(s: Seq<i64>, t: Seq<i64>, x: i64) -> bool {
    exists|at: int| 0 <= at <= s.len() && t == s.insert(at, x)
}

/// Two ascending runs of which the first ends no higher than the second
/// begins make one ascending run.
pub proof fn lemma_joined(a: Seq<i64>, b: Seq<i64>)
    requires
        ascending(a),
        ascending(b),
        a.len() > 0 && b.len() > 0 ==> a.last() <= b.first(),
    ensures
        ascending(a + b),
{
    let all = a + b;
    assert forall|i: int, j: int| 0 <= i <= j < all.len() implies all[i] <= all[j] by {
        if j < a.len() {
            assert(a[i] <= a[j]);
        } else if i >= a.len() {
            assert(b[i - a.len()] <= b[j - a.len()]);
        } else {
            assert(a[i] <= a[a.len() - 1]);
            assert(b[0] <= b[j - a.len()]);
        }
    }
}

/// Either part of an ascending run is ascending, and the first ends no
/// higher than the second begins.
pub proof fn lemma_parted(a: Seq<i64>, b: Seq<i64>)
    requires
        ascending(a + b),
    ensures
        ascending(a),
        ascending(b),
        a.len() > 0 && b.len() > 0 ==> a.last() <= b.first(),
{
    let all = a + b;
    assert forall|i: int, j: int| 0 <= i <= j < a.len() implies a[i] <= a[j] by {
        assert(all[i] <= all[j]);
    }
    assert forall|i: int, j: int| 0 <= i <= j < b.len() implies b[i] <= b[j] by {
        assert(all[i + a.len()] <= all[j + a.len()]);
    }
    if a.len() > 0 && b.len() > 0 {
        assert(all[a.len() - 1] <= all[a.len() as int]);
    }
}

/// A number below the greatest of the lower half goes into the lower half.
pub proof fn lemma_put_low(low0: Seq<i64>, high0: Seq<i64>, low1: Seq<i64>, num: i64)
    requires
        ascending(low0 + high0),
        ascending(low1),
        put_in(low0, low1, num),
        low0.len() == 0 ==> high0.len() == 0,
        low0.len() > 0 ==> num < low0.last(),
    ensures
        ascending(low1 + high0),
        (low1 + high0).to_multiset() == (low0 + high0).to_multiset().insert(num),
        low1.len() == low0.len() + 1,
{
    broadcast use vstd::multiset::group_multiset_axioms;

    let at = choose|at: int| 0 <= at <= low0.len() && low1 == low0.insert(at, num);
    lemma_parted(low0, high0);
    if low0.len() > 0 {
        if at == low0.len() {
            assert(low1[at - 1] <= low1[at]);
            assert(low1[at - 1] == low0.last());
        }
        assert(low1.last() == low0.last());
    }
    lemma_joined(low1, high0);
    to_multiset_insert(low0, at, num);
    lemma_multiset_commutative(low0, high0);
    lemma_multiset_commutative(low1, high0);
    assert((low1 + high0).to_multiset() =~= (low0 + high0).to_multiset().insert(num));
}

/// A number no less than the greatest of the lower half goes into the upper half.
pub proof fn lemma_put_high(low0: Seq<i64>, high0: Seq<i64>, high1: Seq<i64>, num: i64)
    requires
        ascending(low0 + high0),
        ascending(high1),
        put_in(high0, high1, num),
        low0.len() > 0 ==> num >= low0.last(),
    ensures
        ascending(low0 + high1),
        (low0 + high1).to_multiset() == (low0 + high0).to_multiset().insert(num),
        high1.len() == high0.len() + 1,
{
    broadcast use vstd::multiset::group_multiset_axioms;

    let at = choose|at: int| 0 <= at <= high0.len() && high1 == high0.insert(at, num);
    lemma_parted(low0, high0);
    if at > 0 {
        assert(high1[0] == high0[0]);
    }
    lemma_joined(low0, high1);
    to_multiset_insert(high0, at, num);
    lemma_multiset_commutative(low0, high0);
    lemma_multiset_commutative(low0, high1);
    assert((low0 + high1).to_multiset() =~= (low0 + high0).to_multiset().insert(num));
}

/// The greatest of the lower half moves to the upper half.
pub proof fn lemma_move_up(low1: Seq<i64>, high0: Seq<i64>, high2: Seq<i64>)
    requires
        ascending(low1 + high0),
        low1.len() > 0,
        ascending(high2),
        put_in(high0, high2, low1.last()),
    ensures
        ascending(low1.drop_last() + high2),
        (low1.drop_last() + high2).to_multiset() == (low1 + high0).to_multiset(),
        high2.len() == high0.len() + 1,
{
    broadcast use vstd::multiset::group_multiset_axioms;

    let moved = low1.last();
    let low2 = low1.drop_last();
    let at = choose|at: int| 0 <= at <= high0.len() && high2 == high0.insert(at, moved);
    lemma_parted(low1, high0);
    assert(ascending(low2)) by {
        assert forall|i: int, j: int| 0 <= i <= j < low2.len() implies low2[i] <= low2[j] by {
            assert(low1[i] <= low1[j]);
        }
    }
    if low2.len() > 0 {
        assert(low1[low2.len() - 1] <= low1[low1.len() - 1]);
        if at > 0 {
            assert(high2[0] == high0[0]);
        }
    }
    lemma_joined(low2, high2);
    to_multiset_insert(high0, at, moved);
    to_multiset_remove(low1, low1.len() - 1);
    assert(low1.remove(low1.len() - 1) =~= low2);
    low1.to_multiset_ensures();
    assert(low1.contains(moved));
    lemma_multiset_commutative(low1, high0);
    lemma_multiset_commutative(low2, high2);
    assert((low2 + high2).to_multiset() =~= (low1 + high0).to_multiset());
}

/// The least of the upper half moves to the lower half.
pub proof fn lemma_move_down(low0: Seq<i64>, high1: Seq<i64>, low2: Seq<i64>)
    requires
        ascending(low0 + high1),
        high1.len() > 0,
        ascending(low2),
        put_in(low0, low2, high1.first()),
    ensures
        ascending(low2 + high1.drop_first()),
        (low2 + high1.drop_first()).to_multiset() == (low0 + high1).to_multiset(),
        low2.len() == low0.len() + 1,
{
    broadcast use vstd::multiset::group_multiset_axioms;

    let moved = high1.first();
    let high2 = high1.drop_first();
    let at = choose|at: int| 0 <= at <= low0.len() && low2 == low0.insert(at, moved);
    lemma_parted(low0, high1);
    assert(ascending(high2)) by {
        assert forall|i: int, j: int| 0 <= i <= j < high2.len() implies high2[i] <= high2[j] by {
            assert(high1[i + 1] <= high1[j + 1]);
        }
    }
    if high2.len() > 0 {
        assert(high1[0] <= high1[1]);
        if at < low0.len() {
            assert(low2.last() == low0.last());
        }
    }
    lemma_joined(low2, high2);
    to_multiset_insert(low0, at, moved);
    to_multiset_remove(high1, 0);
    assert(high1.remove(0) =~= high2);
    high1.to_multiset_ensures();
    assert(high1.contains(moved));
    lemma_multiset_commutative(low0, high1);
    lemma_multiset_commutative(low2, high2);
    assert((low2 + high2).to_multiset() =~= (low0 + high1).to_multiset());
}

/// The numbers in ascending order.
pub open spec fn ranked(s: Seq<i64>) -> Seq<i64> {
    s.sort_by(|x: i64, y: i64| x <= y)
}

/// The median of the numbers: the middle one in ascending order, or the
/// earlier of the two middle ones.
pub open spec fn median_of(s: Seq<i64>) -> i64 {
    ranked(s)[median_at(s.len() as int)]
}

/// The ascending order of a sequence is ascending, and holds its elements.
pub proof fn lemma_ranked(s: Seq<i64>)
    ensures
        ranks(s, ranked(s)),
{
    let leq = |x: i64, y: i64| x <= y;
    assert(vstd::relations::total_ordering(leq));
    s.lemma_sort_by_ensures(leq);
    s.to_multiset_ensures();
    ranked(s).to_multiset_ensures();
    assert(vstd::relations::sorted_by(ranked(s), leq));
    assert forall|i: int, j: int| 0 <= i <= j < ranked(s).len() implies ranked(s)[i] <= ranked(s)[j] by {
        if i < j {
            assert(leq(ranked(s)[i], ranked(s)[j]));
        }
    }
}

/// The median after each of the numbers, in the order in which they come.
pub fn running_medians(nums: &Vec<i64>) -> (medians: Vec<i64>)
    requires
        nums@.len() < usize::MAX - 1,
    ensures
        medians@.len() == nums@.len(),
        forall|i: int| 0 <= i < nums@.len() ==> #[trigger] medians@[i] == median_of(nums@.take(i + 1)),
{
    let mut halves = Medians::new();
    let mut medians: Vec<i64> = Vec::new();
    let mut i: usize = 0;
    proof {
        let none = Seq::<i64>::empty();
        assert(nums@.take(0) =~= none);
    }
    while i < nums.len()
        invariant
            i <= nums@.len() < usize::MAX - 1,
            halves.wf(),
            halves@.len() == i,
            i > 0 ==> ascending(halves@),
            halves@.to_multiset() == nums@.take(i as int).to_multiset(),
            medians@.len() == i,
            forall|k: int| 0 <= k < i ==> #[trigger] medians@[k] == median_of(nums@.take(k + 1)),
        decreases nums@.len() - i,
    {
        let median = halves.push(nums[i]);
        proof {
            let seen = nums@.take(i + 1);
            assert(seen =~= nums@.take(i as int).push(nums@[i as int]));
            nums@.take(i as int).to_multiset_ensures();
            lemma_ranked(seen);
            lemma_ranks_unique(seen, halves@, ranked(seen));
        }
        medians.push(median);
        i += 1;
    }
    medians
}

/// The numbers added up.
pub open spec fn total(s: Seq<i64>) -> int
    decreases s.len(),
{
    if s.len() == 0 {
        0
    } else {
        total(s.drop_last()) + s.last()
    }
}

/// The sum of the numbers lies within what that many numbers can add up to.
pub proof fn lemma_total_bound(s: Seq<i64>)
    ensures
        -0x8000_0000_0000_0000 * s.len() <= total(s) <= 0x7fff_ffff_ffff_ffff * s.len(),
    decreases s.len(),
{
    if s.len() > 0 {
        lemma_total_bound(s.drop_last());
    }
}

/// The remainder of the sum of the numbers on division by 10000, with the
/// sign of the sum.
pub fn sum_mod_10000(nums: &Vec<i64>) -> (rest: i64)
    ensures
        total(nums@) >= 0 ==> rest == total(nums@) % 10000,
        total(nums@) < 0 ==> rest == -((-total(nums@)) % 10000),
{
    let mut sum: i128 = 0;
    let mut i: usize = 0;
    assert(nums@.take(0) =~= Seq::<i64>::empty());
    while i < nums.len()
        invariant
            i <= nums@.len(),
            sum == total(nums@.take(i as int)),
        decreases nums@.len() - i,
    {
        proof {
            assert(nums@.take(i + 1).drop_last() =~= nums@.take(i as int));
            lemma_total_bound(nums@.take(i as int));
            assert(0x7fff_ffff_ffff_ffff * i <= 0x7fff_ffff_ffff_ffff * 0xffff_ffff_ffff_ffff)
                by (nonlinear_arith)
                requires
                    0 <= i <= 0xffff_ffff_ffff_ffff,
            ;
            assert(-0x8000_0000_0000_0000 * i >= -0x8000_0000_0000_0000 * 0xffff_ffff_ffff_ffff)
                by (nonlinear_arith)
                requires
                    0 <= i <= 0xffff_ffff_ffff_ffff,
            ;
        }
        sum = sum + nums[i] as i128;
        i += 1;
    }
    proof {
        assert(nums@.take(nums@.len() as int) =~= nums@);
        lemma_total_bound(nums@);
        assert(-0x8000_0000_0000_0000 * i >= -0x8000_0000_0000_0000 * 0xffff_ffff_ffff_ffff)
            by (nonlinear_arith)
            requires
                0 <= i <= 0xffff_ffff_ffff_ffff,
        ;
    }
    if sum >= 0 {
        (sum % 10000) as i64
    } else {
        -(((-sum) % 10000) as i64)
    }
}

} // verus!
