//! Honest, reproducible KV benchmarks: workloads, schedules and statistics.
pub mod calendar;
pub mod driver;
pub mod error;
pub mod keyspace;
pub mod metrics;
pub mod promises;
pub mod targets;
pub mod workload;
