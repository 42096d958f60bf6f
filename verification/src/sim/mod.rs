//! Execution simulator: pessimistic maker queue, taker fills against the visible book only,
//! latency drawn from measured samples, fees from the schedule, deterministic replay.

pub mod book;
pub mod exchange;
pub mod fees;
pub mod fill_model;
pub mod latency;
pub mod funding;
pub mod rng;
pub mod types;
