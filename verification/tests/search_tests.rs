use true_crab_utils::search::binary_search;

#[test]
fn test_binary_search_found() {
    let arr: Vec<i64> = vec![1, 2, 3, 4, 5, 6, 7, 8, 9];
    assert_eq!(binary_search(&arr, &5), Some(4));
    assert_eq!(binary_search(&arr, &9), Some(8));
    assert_eq!(binary_search(&arr, &1), Some(0));
}

#[test]
fn test_binary_search_not_found() {
    let arr: Vec<i64> = vec![1, 2, 3, 4, 5, 6, 7, 8, 9];
    assert_eq!(binary_search(&arr, &10), None);
    assert_eq!(binary_search(&arr, &0), None);
}

#[test]
fn test_binary_search_empty_array() {
    let arr: Vec<i64> = vec![];
    assert_eq!(binary_search(&arr, &5), None);
}

#[test]
fn test_binary_search_single_element() {
    let arr: Vec<i64> = vec![5];
    assert_eq!(binary_search(&arr, &5), Some(0));
    assert_eq!(binary_search(&arr, &10), None);
}

#[test]
fn test_binary_search_with_duplicates() {
    let arr: Vec<i64> = vec![1, 3, 3, 3, 7];
    let found = binary_search(&arr, &3);
    assert!(found.is_some());
    let index = found.unwrap();
    assert_eq!(arr[index], 3);
}
