//! Protocol values.
use vstd::prelude::*;

verus! {

/// A protocol value, as far as commands and replies are made of it.
#[derive(Debug)]
pub enum Value {
    /// A short status string.
    SimpleString(Vec<u8>),
    /// An error line, its kind included.
    SimpleError(Vec<u8>),
    /// A signed 64-bit integer.
    Integer(i64),
    /// A binary-safe string.
    BulkString(Vec<u8>),
    /// An ordered list.
    Array(Vec<Value>),
    /// The absent value.
    Null,
    /// Key-value pairs in wire order.
    Pairs(Vec<(Value, Value)>),
    /// A type that neither a command nor a reply is made of.
    Other,
}

/// The bytes of a string value, bulk or simple.
pub open spec fn text(v: Value) -> Option<Seq<u8>> {
    match v {
        Value::BulkString(b) => Some(b@),
        Value::SimpleString(b) => Some(b@),
        _ => None,
    }
}

} // verus!
