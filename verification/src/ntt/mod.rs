//! The number-theoretic transforms.
pub mod inverse;
pub mod laws;
pub mod poly;
pub mod tree;
