//! An unbalanced binary search tree over any totally ordered element type,
//! with an explicit-stack in-order iterator.
pub mod order;
pub mod inorder;
pub mod laws;
pub mod tree;

pub use order::{ascending, equiv, present, lt};
pub use inorder::InOrderIter;
pub use tree::{BinaryTree, TreeError};
