//! A verified multi-party protocol that computes the k-th ranked element of
//! the union of several private integer databases.
//!
//! Each party holds a sorted database. Per round every party counts how many
//! of its elements lie strictly below / strictly above a trial midpoint,
//! encrypts those counts under a threshold additively-homomorphic Paillier
//! key, and the coordinator homomorphically sums them, has them threshold
//! decrypted, and derives a verdict that drives a binary search over the
//! value range until the k-th element is found.

pub mod rank;
pub mod party;
pub mod server;
pub mod dp;
pub mod protocol;
pub mod codec;
pub mod util;
