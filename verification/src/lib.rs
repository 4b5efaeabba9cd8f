//! Metric collection: registries of metrics, the measurements recorded
//! into them, and the readings produced when they are collected.
pub mod clock;
pub mod correlation;
pub mod data;
pub mod laws;
pub mod metric;
pub mod os_usage;
pub mod readings;
pub mod recording;
pub mod registry;
pub mod round_trip;
pub mod shared_map;
pub mod thread_slot;
pub mod welford;
