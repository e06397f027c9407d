use algorithms::median::{running_medians, sum_mod_10000, Heap, Medians};

#[test]
fn medians_follow_the_stream() {
    let medians = running_medians(&vec![5, 1, 9, 3, 3, -7, 100]);
    // 5 | 1 5 | 1 5 9 | 1 3 5 9 | 1 3 3 5 9 | -7 1 3 3 5 9 | -7 1 3 3 5 9 100
    assert_eq!(medians, vec![5, 1, 5, 3, 3, 3, 3]);
    assert_eq!(running_medians(&vec![]), Vec::<i64>::new());
    assert_eq!(running_medians(&vec![2, 2]), vec![2, 2]);
    assert_eq!(running_medians(&vec![1, 2, 3, 4]), vec![1, 1, 2, 2]);
    assert_eq!(running_medians(&vec![4, 3, 2, 1]), vec![4, 3, 3, 2]);
}

#[test]
fn sum_keeps_the_sign_of_the_total() {
    assert_eq!(sum_mod_10000(&vec![9999, 2]), 1);
    assert_eq!(sum_mod_10000(&vec![-9999, -2]), -1);
    assert_eq!(sum_mod_10000(&vec![]), 0);
    assert_eq!(sum_mod_10000(&vec![i64::MAX, i64::MAX]), 1614);
    assert_eq!(sum_mod_10000(&vec![12345, -345]), 2000);
}

#[test]
fn heaps_keep_their_order() {
    let mut heap = Heap::new();
    for n in [4, -1, 9, 4] {
        heap.push(n);
    }
    assert_eq!(heap.len(), 4);
    assert_eq!(heap.peek_min(), -1);
    assert_eq!(heap.peek_max(), 9);
    assert_eq!(heap.pop_max(), 9);
    assert_eq!(heap.pop_min(), -1);
    assert_eq!(heap.pop_min(), 4);
    assert_eq!(heap.len(), 1);
    let mut halves = Medians::new();
    assert_eq!(halves.push(10), 10);
    assert_eq!(halves.push(20), 10);
    assert_eq!(halves.push(30), 20);
}
