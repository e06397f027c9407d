use algorithms::inversions::{count_inversions, sort_and_count_inversions_do};
use algorithms::merge_sort::{merge_sort_v64_do, merge_v64_do, MergeSortable};
use algorithms::quick::{choose_pivot, partition, quick_sort, quick_sort_inner, swap_at, Pivot};
use algorithms::select_sort::SelectSortable;
use rand::seq::SliceRandom;

#[test]
fn ab_sort_test_shuffle() {
    let mut xs: Vec<u64> = vec![];
    for x in 0..=10 {
        xs.push(x);
        xs.push(x);
    }
    let mut rng = rand::thread_rng();
    let image = xs.clone();
    xs.shuffle(&mut rng);
    xs.select();
    // Assert that select(xs) mutates it to match image:
    assert_eq!(xs, image);
}

#[test]
fn select_sorts_small_inputs() {
    let mut none: Vec<u64> = vec![];
    none.select();
    assert!(none.is_empty());
    let mut xs: Vec<u64> = vec![3, 1, 2, 1, u64::MAX, 0];
    xs.select();
    assert_eq!(xs, vec![0, 1, 1, 2, 3, u64::MAX]);
}

#[test]
fn simple() {
    let mut xs = vec![1, 0];
    xs.merge_sort();
    assert_eq!(xs, vec![0, 1]);
}

#[test]
fn simple3() {
    let mut xs = vec![1, 2, 0];
    xs.merge_sort();
    assert_eq!(xs, vec![0, 1, 2]);
}

#[test]
fn t2310134() {
    let mut xs = vec![2, 3, 10, 1, 3, 4];
    xs.merge_sort();
    assert_eq!(xs, vec![1, 2, 3, 3, 4, 10]);
}

#[test]
fn ac_merge_test_shuffle() {
    let mut xs: Vec<u64> = vec![];
    for x in 0..=10 {
        xs.push(x);
        xs.push(x);
    }
    let mut rng = rand::thread_rng();
    let image = xs.clone();
    xs.shuffle(&mut rng);
    xs.merge_sort();
    // Assert that select(xs) mutates it to match image:
    assert_eq!(xs, image);
}

#[test]
fn merge_takes_sorted_halves() {
    // the first half is the shorter one
    let mut xs: [u64; 5] = [4, 9, 1, 4, 7];
    merge_v64_do(&mut xs);
    assert_eq!(xs, [1, 4, 4, 7, 9]);
    let mut ys: [u64; 4] = [5, 3, 2, 8];
    merge_sort_v64_do(&mut ys[1..]);
    assert_eq!(ys, [5, 2, 3, 8]);
    let mut one: [u64; 1] = [6];
    merge_v64_do(&mut one);
    assert_eq!(one, [6]);
}

#[test]
fn test_inversions() {
    assert_eq!(count_inversions(vec![1, 3, 5, 2, 4, 6]), 3);
    assert_eq!(count_inversions(vec![1, 5, 3, 2, 4]), 4);
    assert_eq!(count_inversions(vec![5, 4, 3, 2, 1]), 10);
    assert_eq!(count_inversions(vec![1, 6, 3, 2, 4, 5]), 5);
    assert_eq!(count_inversions(vec![1, 3, 5, 2, 4, 6]), 3);
    assert_eq!(count_inversions(vec![1, 3, 5, 2, 4, 6]), 3);
    assert_eq!(count_inversions(vec![1, 3, 5, 2, 4, 6]), 3);
    assert_eq!(count_inversions(vec![1, 3, 5, 2, 4, 6]), 3);
    assert_eq!(count_inversions(vec![1, 3, 5, 2, 4, 6]), 3);
    assert_eq!(count_inversions(vec![1, 3, 5, 2, 4, 6]), 3);
    assert_eq!(count_inversions(vec![1, 3, 5, 2, 4, 6]), 3);
    assert_eq!(count_inversions(vec![1, 3, 5, 2, 4, 6]), 3);
}

#[test]
fn test_one_inversion() {
    assert_eq!(count_inversions(vec![1, 2]), 0);
    assert_eq!(count_inversions(vec![2, 1]), 1);
}

#[test]
fn equal_elements_count_as_inverted() {
    assert_eq!(count_inversions(vec![]), 0);
    assert_eq!(count_inversions(vec![7]), 0);
    assert_eq!(count_inversions(vec![7, 7]), 1);
    assert_eq!(count_inversions(vec![2, 2, 2]), 3);
    let mut xs: Vec<u64> = vec![3, 1, 2];
    assert_eq!(sort_and_count_inversions_do(&mut xs), 2);
    assert_eq!(xs, vec![1, 2, 3]);
}

#[test]
fn test_comparisons() {
    let input = vec![3, 8, 2, 5, 1, 4, 7, 6];
    let mut output1 = input.clone();
    let mut output2 = input.clone();
    let mut output3 = input.clone();
    let comparisons_first = quick_sort(&mut output1, Pivot::First);
    let comparisons_last = quick_sort(&mut output2, Pivot::Last);
    let comparisons_median = quick_sort(&mut output3, Pivot::Median);
    assert_eq!(comparisons_first, 15);
    assert_eq!(comparisons_last, 15);
    assert_eq!(comparisons_median, 13);
    assert_eq!(output1, vec![1, 2, 3, 4, 5, 6, 7, 8]);
    assert_eq!(output2, vec![1, 2, 3, 4, 5, 6, 7, 8]);
    assert_eq!(output3, vec![1, 2, 3, 4, 5, 6, 7, 8]);
}

#[test]
fn test_sanity() {
    // Smallest possible non-trivial input:
    let input = vec![1, 2, 0];
    let mut output1 = input.clone();
    let mut output2 = input.clone();
    let mut output3 = input.clone();
    let comparisons_first = quick_sort(&mut output1, Pivot::First);
    let comparisons_last = quick_sort(&mut output2, Pivot::Last);
    let comparisons_median = quick_sort(&mut output3, Pivot::Median);
    assert_eq!(comparisons_first, 2);
    assert_eq!(comparisons_last, 3);
    assert_eq!(comparisons_median, 2);
    assert_eq!(output1, vec![0, 1, 2]);
    assert_eq!(output2, vec![0, 1, 2]);
    assert_eq!(output3, vec![0, 1, 2]);
}

#[test]
fn random_with_duplicates() {
    // Shuffle the input
    let mut input = vec![1, 1, 8, 4, 9, 6, 7, 9, 8, 8];
    input.shuffle(&mut rand::thread_rng());

    let mut output1 = input.clone();
    let mut output2 = input.clone();
    let mut output3 = input.clone();

    quick_sort(&mut output1, Pivot::First);
    quick_sort(&mut output2, Pivot::Last);
    quick_sort(&mut output3, Pivot::Median);

    assert_eq!(output1, vec![1, 1, 4, 6, 7, 8, 8, 8, 9, 9]);
    assert_eq!(output2, vec![1, 1, 4, 6, 7, 8, 8, 8, 9, 9]);
    assert_eq!(output3, vec![1, 1, 4, 6, 7, 8, 8, 8, 9, 9]);
}

#[test]
fn sorted_input_takes_every_pair_with_the_first_pivot() {
    let mut xs: Vec<u64> = (0..20).collect();
    assert_eq!(quick_sort(&mut xs, Pivot::First), 190);
    let mut ys: Vec<u64> = vec![];
    assert_eq!(quick_sort(&mut ys, Pivot::Median), 0);
    let mut one: Vec<u64> = vec![4];
    assert_eq!(quick_sort(&mut one, Pivot::Last), 0);
}

#[test]
fn pivots_are_picked_as_named() {
    let xs: Vec<u64> = vec![8, 2, 4, 5, 7, 1];
    assert_eq!(choose_pivot(&xs, Pivot::First), 0);
    assert_eq!(choose_pivot(&xs, Pivot::Last), 5);
    // first 8, middle 4, last 1: the median is the middle
    assert_eq!(choose_pivot(&xs, Pivot::Median), 2);
    let mut ys: Vec<u64> = vec![4, 5, 6, 7];
    // first 4, middle 5, last 7
    assert_eq!(choose_pivot(&ys, Pivot::Median), 1);
    swap_at(&mut ys, 0, 3);
    assert_eq!(ys, vec![7, 5, 6, 4]);
    let mut count: u128 = 10;
    quick_sort_inner(&mut ys, &mut count, Pivot::First);
    assert_eq!(ys, vec![4, 5, 6, 7]);
    assert_eq!(count, 10 + 3 + 2 + 1);
}

#[test]
fn partition_puts_the_pivot_in_its_place() {
    let mut xs: Vec<u64> = vec![3, 8, 2, 5, 1, 4, 7, 6];
    assert_eq!(partition(&mut xs, Pivot::First), 2);
    assert_eq!(xs, vec![1, 2, 3, 5, 8, 4, 7, 6]);
    let mut ys: Vec<u64> = vec![3, 8, 2, 5, 1, 4, 7, 6];
    assert_eq!(partition(&mut ys, Pivot::Last), 5);
    assert_eq!(ys, vec![3, 2, 5, 1, 4, 6, 7, 8]);
    let mut zs: Vec<u64> = vec![2, 2];
    assert_eq!(partition(&mut zs, Pivot::Median), 0);
    assert_eq!(zs, vec![2, 2]);
}
