//! A latency-race harness for competing real-time update streams.
//!
//! Several upstream sources deliver the same discrete units of data (slots);
//! this library ingests timestamped arrival events, deduplicates repeated
//! deliveries, excludes sources that are too far behind the live edge, and
//! determines per unit which source delivered first and by how much the
//! others lagged.  All times are integer microseconds.  Transport
//! connections, CLI handling and report rendering live outside the library;
//! they hand in plain `(source, unit, timestamp)` events and read plain
//! statistics back.

pub mod alignment;
pub mod comparator;
pub mod config;
pub mod counters;
pub mod fzs_client;
pub mod grpc_client;
pub mod ledger;
pub mod math;
pub mod registry;
pub mod stats;

pub use comparator::RaceComparator;
pub use config::Config;
pub use counters::Statistics;
pub use fzs_client::FzsClient;
pub use grpc_client::GrpcClient;
pub use stats::{calculate_stats, LatencyStats};
