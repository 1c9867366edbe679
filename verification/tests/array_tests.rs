use std::cell::Cell;
use std::cell::RefCell;
use true_crab_utils::array::delete;
use true_crab_utils::array::insert;
use true_crab_utils::array::merge_and_sort;
use true_crab_utils::array::reverse;
use true_crab_utils::array::traverse;

#[test]
fn test_traverse() {
    let arr: Vec<i64> = vec![2, 4, 10];
    let sum: Cell<i64> = Cell::new(0);
    traverse(&arr, |x: &i64| sum.set(sum.get() + *x));
    assert_eq!(sum.get(), 16);
}

#[test]
fn test_traverse_visits_in_order() {
    let arr: Vec<i64> = vec![7, -1, 7, 0];
    let seen: RefCell<Vec<i64>> = RefCell::new(Vec::new());
    traverse(&arr, |x: &i64| seen.borrow_mut().push(*x));
    assert_eq!(seen.into_inner(), vec![7, -1, 7, 0]);
}

#[test]
fn test_reverse() {
    let mut arr: Vec<i64> = vec![2, 4, 10];
    reverse(&mut arr);
    assert_eq!(arr, vec![10, 4, 2]);
}

#[test]
fn test_reverse_empty_and_single() {
    let mut empty: Vec<i64> = vec![];
    reverse(&mut empty);
    assert_eq!(empty, vec![]);

    let mut single: Vec<i64> = vec![9];
    reverse(&mut single);
    assert_eq!(single, vec![9]);
}

#[test]
fn test_insert_delete() {
    let mut arr: Vec<i64> = vec![2, 4, 10];
    insert(&mut arr, 100, 1);
    assert_eq!(arr, vec![2, 100, 4, 10]);

    delete(&mut arr, 2);
    assert_eq!(arr, vec![2, 100, 10]);
}

#[test]
fn test_insert_delete_at_ends() {
    let mut arr: Vec<i64> = vec![5];
    insert(&mut arr, 1, 0);
    insert(&mut arr, 7, 2);
    assert_eq!(arr, vec![1, 5, 7]);

    delete(&mut arr, 0);
    delete(&mut arr, 1);
    assert_eq!(arr, vec![5]);
}

#[test]
fn test_merge() {
    let arr1: Vec<i64> = vec![2, 4];
    let arr2: Vec<i64> = vec![3, 1];
    assert_eq!(merge_and_sort(&arr1, &arr2), vec![1, 2, 3, 4]);
}

#[test]
fn test_merge_with_empty_and_duplicates() {
    let empty: Vec<i64> = vec![];
    let arr: Vec<i64> = vec![3, 1, 3];
    assert_eq!(merge_and_sort(&empty, &arr), vec![1, 3, 3]);
    assert_eq!(merge_and_sort(&arr, &empty), vec![1, 3, 3]);
    assert_eq!(merge_and_sort(&arr, &arr), vec![1, 1, 3, 3, 3, 3]);
}
