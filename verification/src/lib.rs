//! Streaming min/mean/max aggregation of `key;value` records.
//!
//! The input is a newline-delimited byte stream. Every line names a station
//! and one measurement; for every station the library reports the smallest
//! and largest measurement and their mean, ordered by station name.
//!
//! Measurements are exact fixed-point decimals, so every contract in this
//! crate is stated over integers.
pub mod display;
pub mod engine;
pub mod helpers;
pub mod laws;
pub mod lines;
pub mod measurement;
pub mod order;
pub mod planner;
pub mod reader;
pub mod record;
pub mod runners;
pub mod station;
pub mod table;
