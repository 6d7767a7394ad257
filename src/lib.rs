//! Coordinator of a proof-of-work mining pool: it hands out nonce ranges, reclaims stale
//! leases, validates and deduplicates solutions, tracks machine throughput and keeps the
//! pool's best solution.

pub mod hash;
pub mod machine;
pub mod packets;
pub mod submitter;
pub mod pool;
