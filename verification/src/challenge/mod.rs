//! The transcript, and the short challenges over the 3^5-th cyclotomic ring that it samples.
pub mod short;
pub mod transcript;

pub use transcript::Transcript;
