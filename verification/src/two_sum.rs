//! Targets that are the sum of two different numbers of a set.

use crate::fx::{fx_set_contains, fx_set_insert, fx_set_items};
use fxhash::FxHashSet;
use vstd::prelude::*;

verus! {

/// `x` is in `numbers`, and so is a different number that adds up with it
/// to `target`.
pub open spec fn has_partner(numbers: Set<i64>, target: int, x: i64) -> bool {
    &&& numbers.contains(x)
    &&& target - x != x
    &&& i64::MIN <= target - x <= i64::MAX
    &&& numbers.contains((target - x) as i64)
}

/// How many of the numbers have a partner for `target`.
pub open spec fn partners(numbers: Set<i64>, target: int) -> nat {
    numbers.filter(|x: i64| has_partner(numbers, target, x)).len()
}

/// How many targets from `lo` to `hi` have exactly one number with a partner.
pub open spec fn targets_hit(numbers: Set<i64>, lo: int, hi: int) -> nat
    decreases hi - lo + 1,
{
    if hi < lo {
        0
    } else {
        targets_hit(numbers, lo, hi - 1) + (if partners(numbers, hi) == 1 {
            1nat
        } else {
            0nat
        })
    }
}

/// The set of the given numbers.
pub fn number_set(numbers: &Vec<i64>) -> (set: FxHashSet<i64>)
    ensures
        set@ == numbers@.to_set(),
{
    let mut set: FxHashSet<i64> = FxHashSet::default();
    let mut i: usize = 0;
    assert(numbers@.take(0).to_set() =~= Set::<i64>::empty());
    while i < numbers.len()
        invariant
            i <= numbers@.len(),
            set@ == numbers@.take(i as int).to_set(),
        decreases numbers@.len() - i,
    {
        fx_set_insert(&mut set, numbers[i]);
        proof {
            let before = numbers@.take(i as int);
            let after = numbers@.take(i + 1);
            assert(after =~= before.push(numbers@[i as int]));
            assert(after.to_set() =~= before.to_set().insert(numbers@[i as int])) by {
                assert forall|x: i64| after.to_set().contains(x) <==> before.to_set().insert(
                    numbers@[i as int],
                ).contains(x) by {
                    if after.contains(x) {
                        let k = choose|k: int| 0 <= k < after.len() && after[k] == x;
                        if k < i {
                            assert(before[k] == x);
                        }
                    }
                    if before.contains(x) {
                        let k = choose|k: int| 0 <= k < before.len() && before[k] == x;
                        assert(after[k] == x);
                    }
                    if x == numbers@[i as int] {
                        assert(after[i as int] == x);
                    }
                }
            }
        }
        i += 1;
    }
    assert(numbers@.take(numbers@.len() as int) =~= numbers@);
    set
}

/// How many of the numbers have a partner for `target`.
pub fn count_partners(numbers: &FxHashSet<i64>, items: &Vec<i64>, target: i64) -> (count: usize)
    requires
        items@.no_duplicates(),
        items@.to_set() == numbers@,
    ensures
        count == partners(numbers@, target as int),
{
    let ghost holds = |x: i64| has_partner(numbers@, target as int, x);
    let mut count: usize = 0;
    let mut k: usize = 0;
    proof {
        assert(items@.take(0).to_set().filter(holds) =~= Set::<i64>::empty());
    }
    while k < items.len()
        invariant
            k <= items@.len(),
            items@.no_duplicates(),
            items@.to_set() == numbers@,
            holds == |x: i64| has_partner(numbers@, target as int, x),
            count == items@.take(k as int).to_set().filter(holds).len(),
            count <= k,
        decreases items@.len() - k,
    {
        let x = items[k];
        let y = target as i128 - x as i128;
        let hit = if y != x as i128 && y >= i64::MIN as i128 && y <= i64::MAX as i128 {
            fx_set_contains(numbers, &(y as i64))
        } else {
            false
        };
        proof {
            let before = items@.take(k as int);
            let after = items@.take(k + 1);
            assert(items@.to_set().contains(x)) by {
                assert(items@[k as int] == x);
            }
            assert(hit == holds(x));
            assert(!before.to_set().contains(x)) by {
                if before.contains(x) {
                    let j = choose|j: int| 0 <= j < before.len() && before[j] == x;
                    assert(items@[j] == items@[k as int]);
                }
            }
            assert(after.to_set() =~= before.to_set().insert(x)) by {
                assert forall|v: i64| after.to_set().contains(v) <==> before.to_set().insert(x).contains(
                    v,
                ) by {
                    if after.contains(v) {
                        let j = choose|j: int| 0 <= j < after.len() && after[j] == v;
                        if j < k {
                            assert(before[j] == v);
                        }
                    }
                    if before.contains(v) {
                        let j = choose|j: int| 0 <= j < before.len() && before[j] == v;
                        assert(after[j] == v);
                    }
                    if v == x {
                        assert(after[k as int] == v);
                    }
                }
            }
            vstd::seq_lib::seq_to_set_is_finite(before);
            before.to_set().lemma_len_filter(holds);
            if hit {
                assert(after.to_set().filter(holds) =~= before.to_set().filter(holds).insert(x));
            } else {
                assert(after.to_set().filter(holds) =~= before.to_set().filter(holds));
            }
        }
        if hit {
            count += 1;
        }
        k += 1;
    }
    assert(items@.take(items@.len() as int) =~= items@);
    count
}

/// How many targets from `lo` to `hi` are the sum of two different numbers
/// of the set for exactly one choice of the first number.
pub fn count_targets(numbers: &FxHashSet<i64>, lo: i64, hi: i64) -> (distinct: usize)
    requires
        lo <= hi < i64::MAX,
        hi - lo < usize::MAX,
    ensures
        distinct == targets_hit(numbers@, lo as int, hi as int),
{
    let items = fx_set_items(numbers);
    let mut distinct: usize = 0;
    let mut target = lo;
    while target <= hi
        invariant
            lo <= target <= hi + 1,
            hi < i64::MAX,
            hi - lo < usize::MAX,
            items@.no_duplicates(),
            items@.to_set() == numbers@,
            distinct == targets_hit(numbers@, lo as int, target - 1),
            distinct <= target - lo,
        decreases hi - target + 1,
    {
        let count = count_partners(numbers, &items, target);
        if count == 1 {
            distinct += 1;
        }
        target += 1;
    }
    distinct
}

} // verus!
