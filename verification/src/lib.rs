//! A binary search tree of `i32` keys.
//!
//! A [`Tree`] starts empty and grows by [`Tree::insert`]; a key that is
//! already there is ignored. Two lazy walks list the keys, level by level
//! ([`Tree::level_iter`]) and in ascending order ([`Tree::in_ord_iter`]), and
//! [`Tree::values`] lists them level by level at once. The tree is never
//! rebalanced, so its form follows the order of the insertions.
//!
//! Contracts are stated over [`Shape`], the tree as a mathematical value;
//! `laws` holds what is proved of every shape.

mod forest;
pub mod in_order_iter;
pub mod laws;
pub mod level_iter;
pub mod node;
pub mod shape;
pub mod tree;

pub use in_order_iter::InOrderIterator;
pub use level_iter::LevelIterator;
pub use node::Node;
pub use shape::Shape;
pub use tree::Tree;
