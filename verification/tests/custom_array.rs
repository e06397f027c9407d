use algorithms::custom_array::{rsf, FixedSizeArray, Person};

#[test]
fn test_fixed_size_array() {
    let mut ages = FixedSizeArray::new();
    ages.push(1);
    ages.push(2);
    ages.push(3);
    ages.push(4);
    ages.push(5);
    ages.push(6);
    ages.push(7);
    ages.push(8);
    ages.push(9);
    ages.push(10);

    assert_eq!(ages.as_slice()[0], 1);
    assert_eq!(ages.as_slice()[1], 2);
    assert_eq!(ages.as_slice()[2], 3);
    assert_eq!(ages.as_slice()[3], 4);
    assert_eq!(ages.as_slice()[4], 5);
    assert_eq!(ages.as_slice()[5], 6);
    assert_eq!(ages.as_slice()[6], 7);
    assert_eq!(ages.as_slice()[7], 8);
    assert_eq!(ages.as_slice()[8], 9);
    assert_eq!(ages.as_slice()[9], 10);
}

#[test]
#[should_panic]
fn test_fixed_size_array_panic() {
    let mut ages = FixedSizeArray::new();
    ages.push(1);
    ages.push(2);
    ages.push(3);
    ages.push(4);
    ages.push(5);
    ages.push(6);
    ages.push(7);
    ages.push(8);
    ages.push(9);
    ages.push(10);
    ages.push(11);
}

#[test]
fn grandparent_has_three_children() {
    let child = Person::new("Child", 12, None);
    let parent = Person::new("Parent", 35, Some(child.clone()));
    let grandparent = Person::new("Grandparent", 60, Some(parent.clone()));

    let mut ages = FixedSizeArray::new();
    grandparent.collect_ages(&mut ages);

    assert_eq!(ages.as_slice()[0], 60);
    assert_eq!(ages.as_slice()[1], 35);
    assert_eq!(ages.as_slice()[2], 12);
}

#[test]
fn ages_can_be_used_as_slice() {
    let mut ages = FixedSizeArray::new();
    ages.push(1);
    assert_eq!(rsf(ages.as_slice()), 1);
}

#[test]
fn an_empty_array_has_no_first() {
    let ages = FixedSizeArray::new();
    assert_eq!(ages.len(), 0);
    assert!(!ages.is_full());
    assert_eq!(ages.as_slice(), &[] as &[u8]);
    assert_eq!(rsf(ages.as_slice()), 255);
    let child = Person::new("Child", 12, None);
    assert_eq!(child.name, "Child");
    assert_eq!(child.age, 12);
    assert!(child.oldest_child.is_none());
}
