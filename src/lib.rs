//! Two textbook structures with verified contracts: a singly linked list
//! with head and tail access and positional splicing, and an unbalanced
//! binary search tree with its four traversal orders.
pub mod binary_search_tree;
pub mod linked_list;
