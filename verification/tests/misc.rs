use algorithms::dijkstra::{
    insert_climbing, parse_arc, parse_entries, parse_entry, parse_weight, renumber, targets_in_range,
};
use algorithms::entry_points::{ensure_entry_points_unique, find_entry_point};
use algorithms::raw_entry_api::mut_pop_map_no_clone;
use algorithms::two_sum::{count_partners, count_targets, number_set};
use std::collections::HashMap;

#[test]
fn entry_points_unique() {
    let names: Vec<String> = [
        "karatsuba",
        "inversions",
        "comparisons",
        "karger",
        "kosajaru",
        "kosyak",
        "dijkstra",
        "2sum_",
        "median_",
        "custom_array",
        "howto/raw_entry_api",
        "ctf/rusty",
        "janestreet/die-agony",
        "codingame/puzzle/shadow_casting",
        "codingame/puzzle/the_lost_files/1",
    ]
    .iter()
    .map(|s| s.to_string())
    .collect();
    assert!(ensure_entry_points_unique(&names));
}

#[test]
fn a_repeated_name_is_found_out() {
    let names: Vec<String> = ["a", "b", "a"].iter().map(|s| s.to_string()).collect();
    assert!(!ensure_entry_points_unique(&names));
    assert!(ensure_entry_points_unique(&vec![]));
    assert_eq!(find_entry_point(&names, &"a".to_string()), Some(0));
    assert_eq!(find_entry_point(&names, &"b".to_string()), Some(1));
    assert_eq!(find_entry_point(&names, &"c".to_string()), None);
}

#[test]
fn pop_takes_one_entry_out() {
    let mut map: HashMap<u32, &str> = HashMap::new();
    assert!(mut_pop_map_no_clone(&mut map).is_none());
    map.insert(1, "one");
    map.insert(2, "two");
    let (k, v) = mut_pop_map_no_clone(&mut map).unwrap();
    assert!((k == 1 && v == "one") || (k == 2 && v == "two"));
    assert_eq!(map.len(), 1);
    assert!(!map.contains_key(&k));
    mut_pop_map_no_clone(&mut map).unwrap();
    assert!(map.is_empty());
}

#[test]
fn partners_come_in_pairs() {
    let set = number_set(&vec![1, 2, 3, 7, 3]);
    assert_eq!(set.len(), 4);
    let items: Vec<i64> = set.iter().cloned().collect();
    // 1 + 3 and 3 + 1
    assert_eq!(count_partners(&set, &items, 4), 2);
    // 3 + 3 does not count
    assert_eq!(count_partners(&set, &items, 6), 0);
    // 1 + 7, 7 + 1, 3 + 5 not there
    assert_eq!(count_partners(&set, &items, 8), 2);
    assert_eq!(count_partners(&set, &items, i64::MAX), 0);
    // no target has exactly one number with a partner
    assert_eq!(count_targets(&set, -20, 20), 0);
    assert_eq!(count_targets(&number_set(&vec![]), 0, 0), 0);
}

#[test]
fn weighted_lines_are_read() {
    let text = "1\t2,10\t3,-4\n3\t1,7,extra\n";
    let entries = parse_entries(text).unwrap();
    assert_eq!(entries, vec![(0, vec![(1, 10), (2, -4)]), (2, vec![(0, 7)])]);
    assert!(parse_entries("1 2\n").is_err());
    assert!(parse_entries("0 1,1\n").is_err());
    assert!(parse_entries("1 0,1\n").is_err());
    assert!(parse_entries("1 2,\n").is_err());
    assert!(parse_entries("\n").is_err());
    assert_eq!(parse_entries("").unwrap(), vec![]);
    let bytes = b"12,+34 5,-2147483648 5,2147483648 -0 +";
    assert_eq!(parse_arc(bytes, 0, 6), Some((11, 34)));
    assert_eq!(parse_arc(bytes, 7, 20), Some((4, i32::MIN)));
    assert_eq!(parse_arc(bytes, 21, 33), None);
    assert_eq!(parse_weight(bytes, 34, 36), Some(0));
    assert_eq!(parse_weight(bytes, 37, 38), None);
    assert_eq!(parse_weight(bytes, 23, 33), None);
    assert_eq!(parse_weight(bytes, 9, 20), Some(i32::MIN));
    assert_eq!(parse_entry(bytes, 0, 6), None);
    assert_eq!(parse_entry(b"3 1,2", 0, 5), Some((2, vec![(0, 2)])));
}

#[test]
fn nodes_are_renumbered_without_gaps() {
    // nodes 5, 2 and 9; 2 is named twice, the later line counts
    let entries = vec![
        (5, vec![(2, 1), (9, 2), (7, 3)]),
        (2, vec![(5, 4)]),
        (9, vec![]),
        (2, vec![(9, 5), (2, 6)]),
    ];
    let rows = renumber(&entries);
    // 2 -> 0, 5 -> 1, 9 -> 2; 7 has no line and keeps its number
    assert_eq!(rows, vec![vec![(2, 5), (0, 6)], vec![(0, 1), (2, 2), (7, 3)], vec![]]);
    assert!(!targets_in_range(&rows));
    assert!(targets_in_range(&vec![vec![(1, 0)], vec![(0, 0), (1, 0)]]));
    assert_eq!(renumber(&vec![]), Vec::<Vec<(usize, i32)>>::new());
    let mut keys = vec![1, 4, 9];
    insert_climbing(&mut keys, 5);
    insert_climbing(&mut keys, 0);
    assert_eq!(keys, vec![0, 1, 4, 5, 9]);
}
