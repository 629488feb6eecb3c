//! What callers of a store give and get.
use vstd::prelude::*;

verus! {

/// A value that was read.
#[derive(Debug)]
pub struct Entry {
    pub value: Vec<u8>,
    /// In how many milliseconds the key expires.
    pub expires_in_ms: Option<u64>,
    /// JSON text.
    pub metadata: Option<Vec<u8>>,
    /// Monotonically-increasing write timestamp (ms since epoch). Used as a
    /// revision for compare-and-swap.
    pub revision: u64,
}

/// What an `Entry` says.
#[verifier::ext_equal]
pub struct EntryData {
    pub value: Seq<u8>,
    pub expires_in_ms: Option<u64>,
    pub metadata: Option<Seq<u8>>,
    pub revision: u64,
}

impl View for Entry {
    type V = EntryData;

    open spec fn view(&self) -> EntryData {
        EntryData {
            value: self.value@,
            expires_in_ms: self.expires_in_ms,
            metadata: match self.metadata {
                Some(m) => Some(m@),
                None => None,
            },
            revision: self.revision,
        }
    }
}

/// How a key is to be written.
#[derive(Debug)]
pub struct SetOptions {
    /// The lifetime in milliseconds.
    pub ttl_ms: Option<u128>,
    /// JSON text.
    pub metadata: Option<Vec<u8>>,
}

impl Default for SetOptions {
    fn default() -> (r: Self)
        ensures
            r.ttl_ms is None,
            r.metadata is None,
    {
        SetOptions { ttl_ms: None, metadata: None }
    }
}

/// How long a key has still to live.
#[derive(Debug, Clone, Copy, PartialEq, Eq, Structural)]
pub enum TtlResult {
    NoExpiry,
    NotFound,
    Remaining(u64),
}

/// What a read is to do with the key's expiry.
#[derive(Debug, Clone, Copy, PartialEq, Eq, Structural)]
pub enum GetExOp {
    /// A lifetime in milliseconds.
    SetTtl(u128),
    Persist,
}

/// A page of a scan.
#[derive(Debug)]
pub struct ScanPage {
    pub next_cursor: Vec<u8>,
    pub keys: Vec<Vec<u8>>,
}

} // verus!
