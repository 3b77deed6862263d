//! An unbalanced binary search tree over `i32` keys, with insertion,
//! search, removal and in-order rendering, each proved against an in-order
//! sequence model of the tree.
pub mod laws;
pub mod render;
pub mod tree;
