//! A small ownership tree of named amounts: subtree totals and
//! pre-order lookup by name.

pub mod laws;
pub mod node;

pub use node::TreeNode;
