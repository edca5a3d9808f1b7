//! An ICMP echo ("ping") engine: packet codec, probe scheduling, round-trip
//! statistics and report text, with every function verified against its contract.

pub mod checksum;
pub mod codec;
pub mod config;
pub mod inflight;
pub mod ledger;
pub mod model;
pub mod outcome;
pub mod report;
pub mod scheduler;
pub mod stats;
