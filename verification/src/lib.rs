//! A Redis-compatible key-value store: protocol, log-structured engine and
//! benchmark harness.
use vstd::prelude::*;

pub mod bench;
pub mod bytes;
pub mod codec;
pub mod decimal;
pub mod engine;
pub mod fx;
pub mod proto;
pub mod text;

verus! {

} // verus!
