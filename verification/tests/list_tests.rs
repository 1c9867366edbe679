use true_crab_utils::linked_list::LinkedList;

/// Read the whole list front-to-back through the handle accessors.
fn collect(list: &LinkedList<i64>) -> Vec<i64> {
    let mut values = Vec::new();
    let mut cursor = list.head_handle();
    while let Some(handle) = cursor {
        values.push(*list.value_at(handle));
        cursor = list.next_of(handle);
    }
    values
}

#[test]
fn test_insertions() {
    let mut list = LinkedList::new();
    list.push_front(2);
    list.push_front(4);
    list.push_back(10);

    // Check head and next node
    let head = list.head_handle().unwrap();
    assert_eq!(*list.value_at(head), 4);
    let second = list.next_of(head).unwrap();
    assert_eq!(*list.value_at(second), 2);

    // Insert after head
    list.insert_after(head, 5);

    // Verify insertion
    let head = list.head_handle().unwrap();
    let second = list.next_of(head).unwrap();
    assert_eq!(*list.value_at(second), 5);
}

#[test]
fn test_deletion() {
    let mut list = LinkedList::new();
    list.push_front(2);
    list.push_front(4);
    list.pop_front();
    let head = list.head_handle().unwrap();
    assert_eq!(*list.value_at(head), 2);
}

#[test]
fn test_list_scenario() {
    let mut list = LinkedList::new();
    list.push_front(2);
    list.push_front(4);
    assert_eq!(collect(&list), vec![4, 2]);
    list.push_back(10);
    assert_eq!(collect(&list), vec![4, 2, 10]);
}

#[test]
fn test_push_front_reverses() {
    let mut list = LinkedList::new();
    list.push_front(1);
    list.push_front(2);
    list.push_front(3);
    assert_eq!(collect(&list), vec![3, 2, 1]);
}

#[test]
fn test_push_back_keeps_order() {
    let mut list = LinkedList::new();
    list.push_back(1);
    list.push_back(2);
    list.push_back(3);
    assert_eq!(collect(&list), vec![1, 2, 3]);
}

#[test]
fn test_pop_front_on_empty_is_noop() {
    let mut list: LinkedList<i64> = LinkedList::new();
    list.pop_front();
    assert_eq!(collect(&list), vec![]);

    list.push_front(8);
    list.pop_front();
    list.pop_front();
    assert_eq!(collect(&list), vec![]);
}

#[test]
fn test_insert_after_preserves_other_links() {
    let mut list = LinkedList::new();
    list.push_back(1);
    list.push_back(2);
    list.push_back(3);
    let head = list.head_handle().unwrap();
    let second = list.next_of(head).unwrap();
    list.insert_after(second, 9);
    assert_eq!(collect(&list), vec![1, 2, 9, 3]);
}

#[test]
fn test_default_list_is_empty() {
    let list: LinkedList<i64> = LinkedList::default();
    assert_eq!(collect(&list), vec![]);
}
