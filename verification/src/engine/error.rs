//! What can go wrong in the engine.
use vstd::prelude::*;

verus! {

#[derive(Debug)]
pub enum EngineError {
    /// An operation on a file failed.
    Io { reason: &'static str },
    /// The bytes at this offset do not have the checksum stored for them.
    CrcMismatch { offset: u64 },
    /// The bytes at this offset are no record.
    BadRecord { offset: u64, reason: &'static str },
    /// The name cannot be that of a namespace.
    InvalidNamespace { name: String },
    /// The metadata of an entry cannot be written as JSON.
    MetadataJson,
    /// Another reclaim or flush is under way.
    ReclamationBusy,
    /// A limit was reached.
    CapacityExceeded { reason: &'static str },
    /// An argument cannot be served.
    InvalidInput { reason: &'static str },
    /// The state of the key does not allow the write.
    Conflict { reason: &'static str },
    /// Writes are refused while the store is handed over.
    Frozen,
    /// A seal was made to fail on purpose.
    TestSealFailure,
}

pub type Result<T> = std::result::Result<T, EngineError>;

} // verus!
