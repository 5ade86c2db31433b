//! An in-memory text buffer kept as a rope: a binary tree of string leaves
//! whose branches cache the byte length of their left subtree.

pub mod iterator;
pub mod rope;
pub mod text;

pub use crate::iterator::RopeIterator;
pub use crate::rope::{Rope, RopeNode};
