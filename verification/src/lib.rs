//! In-memory timestamping core: a sharded, deduplicating store of 512-bit
//! digests with a salted Merkle commitment built over its snapshots.

pub mod chain;
pub mod digest;
pub mod flatten;
pub mod hashing;
pub mod merkle;
pub mod service;
pub mod sharded;
pub mod store;

pub use crate::digest::Hash512;
pub use crate::digest::Hash512Error;
pub use crate::digest::Hash512Ops;
pub use crate::hashing::hash512;
