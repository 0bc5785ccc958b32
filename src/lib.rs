//! Proof-of-work nonce search: preimage encoding, difficulty evaluation,
//! Keccak-256 hashing, work partitioning and throughput statistics.

pub mod difficulty;
pub mod encoding;
pub mod hashing;
pub mod search;
pub mod monitor;
