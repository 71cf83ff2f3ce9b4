//! In-memory containers with verified contracts: a self-balancing ordered
//! set (AVL tree) together with a plain binary search tree, a bucket-based
//! hash map, a singly linked list and a stack.

pub mod avl_tree;
pub mod binary_tree;
pub mod hash_map;
pub mod linked_list;
pub mod stack;
