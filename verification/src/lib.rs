//! An in-memory ordered index: a balanced multiway search tree over `usize`
//! keys with logarithmic search and insertion. Nodes split when they
//! overflow; the root grows by one level exactly when it is full at the
//! start of an insertion.

pub mod node;
pub mod tree;

pub use node::BTreeNode;
pub use tree::BTree;
