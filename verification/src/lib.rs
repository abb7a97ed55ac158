//! Load-test engine: schedules bursts of requests per endpoint, reduces their
//! outcomes to latency statistics and expectation verdicts, and compares a run
//! with the most recent stored snapshot.

pub mod average;
pub mod compare;
pub mod config;
pub mod error;
pub mod headers;
pub mod json;
pub mod lookup;
pub mod process;
pub mod request;
pub mod runner;
pub mod snapshot;
pub mod stats;
