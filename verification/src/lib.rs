//! A last-in-first-out stack of `i32` values, kept as a singly linked chain of
//! heap nodes in which every node has exactly one owner.

pub mod laws;
pub mod model;
pub mod stack;

pub use crate::stack::List;
