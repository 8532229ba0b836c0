//! Kingman's n-coalescent on the partitions of `{0, .., n-1}`.
//!
//! The process starts from `n` singletons. At each step it picks one of the
//! pairs of blocks, every pair as likely as any other, and makes the two blocks
//! one, until one block is left. The time between two merges is exponential;
//! the library says with which rate and leaves it to the caller to draw it.

pub mod coalescent;
pub mod pairs;
pub mod partition;
pub mod realization;
pub mod rng;
pub mod store;

pub use crate::coalescent::Coalescent;
pub use crate::realization::Waiting;
