//! The storage engine: a log per namespace, an index in memory, and a cache.
pub mod answers;
pub mod cache;
pub mod cache_policy;
pub mod coherence;
pub mod delivery;
pub mod error;
pub mod glob;
pub mod log;
pub mod store;
pub mod types;
pub mod value_store;
pub mod watch;
