//! Classic data structures and algorithms with machine-checked contracts:
//! array utilities, merge sort, binary search, a singly linked list, and an
//! unbalanced binary search tree.

pub mod array;
pub mod binary_tree;
pub mod linked_list;
pub mod search;
pub mod sort;
