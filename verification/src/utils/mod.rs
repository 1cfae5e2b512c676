//! Hashing and the hash tables built on it.

pub mod simple_hasher;
pub mod tables;

pub use simple_hasher::SimpleHasher;
