use true_crab_utils::binary_tree::BinaryTree;

#[test]
fn test_insert_and_search() {
    let mut tree = BinaryTree::new();
    tree.insert(5);
    tree.insert(3);
    tree.insert(7);

    assert!(tree.search(&5));
    assert!(tree.search(&3));
    assert!(tree.search(&7));
    assert!(!tree.search(&10));
}

#[test]
fn test_in_order_traversal() {
    let mut tree = BinaryTree::new();
    tree.insert(5);
    tree.insert(3);
    tree.insert(7);
    tree.insert(2);
    tree.insert(4);

    assert_eq!(tree.in_order_traversal(), vec![2, 3, 4, 5, 7]);
}

#[test]
fn test_empty_tree() {
    let tree: BinaryTree = BinaryTree::new();
    assert!(!tree.search(&5));
    assert_eq!(tree.in_order_traversal(), vec![]);
}

#[test]
fn test_tree_scenario() {
    let mut tree = BinaryTree::new();
    tree.insert(5);
    tree.insert(3);
    tree.insert(7);
    tree.insert(2);
    tree.insert(4);
    assert_eq!(tree.in_order_traversal(), vec![2, 3, 4, 5, 7]);
    assert!(!tree.search(&10));
}

#[test]
fn test_duplicate_inserts_collapse() {
    let mut tree = BinaryTree::new();
    tree.insert(5);
    tree.insert(5);
    tree.insert(3);
    tree.insert(3);
    tree.insert(5);
    assert_eq!(tree.in_order_traversal(), vec![3, 5]);
    assert!(tree.search(&3));
    assert!(tree.search(&5));
    assert!(!tree.search(&4));
}

#[test]
fn test_sorted_insertion_order() {
    let mut tree = BinaryTree::new();
    for v in [1, 2, 3, 4, 5, 6] {
        tree.insert(v);
    }
    assert_eq!(tree.in_order_traversal(), vec![1, 2, 3, 4, 5, 6]);
    assert!(tree.search(&6));
    assert!(!tree.search(&0));
}

#[test]
fn test_default_tree_is_empty() {
    let tree: BinaryTree = BinaryTree::default();
    assert_eq!(tree.in_order_traversal(), vec![]);
    assert!(!tree.search(&0));
}
