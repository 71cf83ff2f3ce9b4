//! A self-balancing ordered set backed by an AVL tree.
//!
//! [`tree`] holds the node type with its local rebalancing machinery;
//! [`set`] holds the public container built on top of it.

pub mod set;
pub mod tree;
