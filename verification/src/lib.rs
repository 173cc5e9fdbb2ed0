//! A deterministic single-CPU scheduling simulator.
//!
//! A set of jobs and a policy go in; the complete execution trace and the
//! per-job and aggregate statistics come out. Simulated time is an abstract
//! integer tick, and every decision is fully determined by the inputs.

pub mod driver;
pub mod engine;
pub mod intake;
pub mod invariants;
pub mod job;
pub mod laws;
pub mod metrics;
pub mod model;
pub mod policy;
pub mod ready;
pub mod trace;
