use true_crab_utils::sort::merge_sort;

#[test]
fn test_merge_sort() {
    let mut arr: Vec<i64> = vec![38, 27, 43, 3, 9, 82, 10];
    merge_sort(&mut arr);
    assert_eq!(arr, vec![3, 9, 10, 27, 38, 43, 82]);
}

#[test]
fn test_merge_sort_empty() {
    let mut arr: Vec<i64> = vec![];
    merge_sort(&mut arr);
    assert_eq!(arr, vec![]);
}

#[test]
fn test_merge_sort_single_element() {
    let mut arr: Vec<i64> = vec![5];
    merge_sort(&mut arr);
    assert_eq!(arr, vec![5]);
}

#[test]
fn test_merge_sort_already_sorted() {
    let mut arr: Vec<i64> = vec![1, 2, 3, 4, 5];
    merge_sort(&mut arr);
    assert_eq!(arr, vec![1, 2, 3, 4, 5]);
}

#[test]
fn test_merge_sort_reverse_sorted() {
    let mut arr: Vec<i64> = vec![5, 4, 3, 2, 1];
    merge_sort(&mut arr);
    assert_eq!(arr, vec![1, 2, 3, 4, 5]);
}

#[test]
fn test_merge_sort_keeps_duplicates() {
    let mut arr: Vec<i64> = vec![2, 1, 2, -4, 1, 2];
    merge_sort(&mut arr);
    assert_eq!(arr, vec![-4, 1, 1, 2, 2, 2]);
}
