//! Record bit flags.
use vstd::prelude::*;

verus! {

/// The record deletes its key.
pub const TOMBSTONE: u8 = 1;

/// The key has no expiry.
pub const NO_EXPIRY: u8 = 2;

/// The record changes the expiry of its key and nothing else.
pub const TTL_UPDATE: u8 = 4;

/// Value-separated: the record's value field is a 16-byte content hash, not the value itself. The
/// value lives in the blob store.
pub const VALUE_SEP: u8 = 8;

} // verus!
