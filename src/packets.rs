//! Requests and responses exchanged with workers.

use vstd::prelude::*;

verus! {

/// A machine announcing that it is active.
#[derive(Debug, Clone)]
pub struct BootRequest {
    pub student_number: String,
    pub name: String,
}

#[derive(Debug, Clone)]
pub struct CommandResponse {
    pub ok: bool,
    pub msg: Option<String>,
}

/// A machine announcing that it goes offline.
#[derive(Debug, Clone)]
pub struct ShutdownRequest {
    pub name: String,
    pub student_number: String,
}

#[derive(Debug, Clone)]
pub struct JobRequestPacket {
    pub student_number: String,
    pub name: String,
}

/// A leased nonce range `[nounce_start, nounce_end)`.
#[derive(Debug, Clone, Copy, PartialEq, Eq, Structural)]
pub struct Job {
    pub number: u64,
    pub size: u64,
    pub nounce_start: u64,
    pub nounce_end: u64,
}

#[derive(Debug, Clone)]
pub enum JobResponsePacket {
    Success(Job),
    Error(String),
}

/// A hash that a worker found. `time` is in milliseconds since the epoch.
#[derive(Debug, Clone)]
pub struct Solution {
    pub sha256: String,
    pub nounce: String,
    pub time: u64,
}

/// Sent when a job is complete. Hash rates are in whole hashes per second.
#[derive(Debug, Clone)]
pub struct SubmittionPacket {
    pub job_n: u64,
    pub name: String,
    pub student_number: String,
    pub thread_hashes_per_second: u64,
    pub total_hashes_per_second: u64,
    pub nounce_start: u64,
    pub nounce_end: u64,
    pub solutions: Vec<Solution>,
}

/// The answer to a job submission.
#[derive(Debug, Clone, Copy, PartialEq, Eq, Structural)]
pub enum SubmittionResponsePacket {
    Accepted,
    Rejected,
}

#[derive(Debug, Clone)]
pub struct PoolStatusRequestPacket {
    pub student_number: String,
}

/// Pool statistics for one submitter. The hash rate is in whole hashes per second.
#[derive(Debug, Clone, Copy, PartialEq, Eq, Structural)]
pub struct PoolStatusResponsePacket {
    pub user_total_hash_rate: u64,
    pub user_total_shares: u64,
    pub pool_total_shares: u64,
    pub pool_best_zero_length: u64,
    pub completed_jobs: u64,
}

} // verus!
