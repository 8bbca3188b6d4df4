use bounded_scope::aliasing::data_race;
use bounded_scope::dataset::{average, count, one, range_inclusive, sum};

#[test]
fn mean_of_zero_to_hundred_is_fifty() {
    assert_eq!(one(), 50);
}

#[test]
fn range_holds_both_ends() {
    assert_eq!(range_inclusive(0, 3), vec![0, 1, 2, 3]);
    assert_eq!(range_inclusive(5, 5), vec![5]);
    assert_eq!(range_inclusive(usize::MAX - 1, usize::MAX), vec![usize::MAX - 1, usize::MAX]);
    assert_eq!(range_inclusive(0, 100).len(), 101);
}

#[test]
fn range_with_ends_reversed_is_empty() {
    assert_eq!(range_inclusive(4, 3), Vec::<usize>::new());
}

#[test]
fn count_is_the_length() {
    assert_eq!(count(&vec![1, 2, 3]), 3);
    assert_eq!(count(&Vec::new()), 0);
}

#[test]
fn sum_adds_every_element() {
    assert_eq!(sum(&vec![1, 2, 3]), Some(6));
    assert_eq!(sum(&Vec::new()), Some(0));
    assert_eq!(sum(&range_inclusive(0, 100)), Some(5050));
    assert_eq!(sum(&vec![usize::MAX - 1, 1]), Some(usize::MAX));
}

#[test]
fn sum_that_does_not_fit_is_none() {
    assert_eq!(sum(&vec![usize::MAX, 1]), None);
    assert_eq!(sum(&vec![usize::MAX, 1, 0, 0]), None);
    assert_eq!(sum(&vec![1, usize::MAX - 1, 1]), None);
}

#[test]
fn average_rounds_towards_zero() {
    assert_eq!(average(&vec![1, 2, 3]), Some(2));
    assert_eq!(average(&vec![1, 2]), Some(1));
    assert_eq!(average(&vec![7]), Some(7));
    assert_eq!(average(&range_inclusive(0, 100)), Some(50));
}

#[test]
fn average_of_nothing_is_none() {
    assert_eq!(average(&Vec::new()), None);
}

#[test]
fn average_of_a_sum_that_does_not_fit_is_none() {
    assert_eq!(average(&vec![usize::MAX, usize::MAX]), None);
}

#[test]
fn reading_is_unchanged_by_writing_elsewhere() {
    let a: i32 = 7;
    let mut b: i32 = 41;
    assert!(!data_race(&a, &mut b));
    assert_eq!(a, 7);
    assert_eq!(b, 42);
}

#[test]
fn increment_reaches_the_largest_value() {
    let a: i32 = i32::MIN;
    let mut b: i32 = i32::MAX - 1;
    assert!(!data_race(&a, &mut b));
    assert_eq!(b, i32::MAX);
}
