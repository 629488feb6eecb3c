//! Replies.
use vstd::prelude::*;
use vstd::utf8::encode_utf8;

use crate::bytes;
use crate::proto::value::Value;

verus! {

/// The version that a `HELLO` reply names.
pub const VERSION: &'static str = "0.1.0";

/// `v` is the simple string `s`.
pub open spec fn is_simple(v: Value, s: Seq<char>) -> bool {
    v matches Value::SimpleString(b) && b@ == encode_utf8(s)
}

fn simple(s: &str) -> (r: Value)
    ensures
        is_simple(r, s@),
{
    Value::SimpleString(bytes::to_owned(s.as_bytes()))
}

pub fn ok() -> (r: Value)
    ensures
        is_simple(r, "OK"@),
{
    simple("OK")
}

pub fn nil() -> (r: Value)
    ensures
        r == Value::Null,
{
    Value::Null
}

pub fn integer(n: i64) -> (r: Value)
    ensures
        r == Value::Integer(n),
{
    Value::Integer(n)
}

pub fn bulk(b: Vec<u8>) -> (r: Value)
    ensures
        r == Value::BulkString(b),
{
    Value::BulkString(b)
}

/// The bytes of an error line: the kind, a space, the message.
pub open spec fn error_line(kind: Seq<char>, msg: Seq<char>) -> Seq<u8> {
    encode_utf8(kind) + seq![32u8] + encode_utf8(msg)
}

pub fn error(kind: &str, msg: &str) -> (r: Value)
    ensures
        r matches Value::SimpleError(b) && b@ == error_line(kind@, msg@),
{
    let mut line: Vec<u8> = bytes::to_owned(kind.as_bytes());
    line.push(32);
    bytes::extend(&mut line, msg.as_bytes());
    assert(line@ =~= error_line(kind@, msg@));
    Value::SimpleError(line)
}

pub fn err_wrong_type() -> (r: Value)
    ensures
        r matches Value::SimpleError(b) && b@ == error_line(
            "WRONGTYPE"@,
            "Operation against a key holding the wrong kind of value"@,
        ),
{
    error("WRONGTYPE", "Operation against a key holding the wrong kind of value")
}

pub fn array(items: Vec<Value>) -> (r: Value)
    ensures
        r == Value::Array(items),
{
    Value::Array(items)
}

/// The reply to a `SCAN`: the next cursor, then the keys in the order given.
pub fn scan_reply(cursor: Vec<u8>, keys: Vec<Vec<u8>>) -> (r: Value)
    ensures
        r matches Value::Array(parts) && parts@.len() == 2 && parts@[0] == Value::BulkString(cursor)
            && (parts@[1] matches Value::Array(items) && items@.len() == keys@.len() && (forall|
            i: int,
        |
            0 <= i < keys@.len() ==> (#[trigger] items@[i] matches Value::BulkString(b) && b@
                == keys@[i]@))),
{
    let mut items: Vec<Value> = Vec::new();
    let mut i: usize = 0;
    while i < keys.len()
        invariant
            i <= keys@.len(),
            items@.len() == i,
            forall|j: int|
                0 <= j < i ==> (#[trigger] items@[j] matches Value::BulkString(b) && b@
                    == keys@[j]@),
        decreases keys@.len() - i,
    {
        items.push(Value::BulkString(bytes::to_owned(keys[i].as_slice())));
        i = i + 1;
    }
    let mut parts: Vec<Value> = Vec::new();
    parts.push(Value::BulkString(cursor));
    parts.push(Value::Array(items));
    Value::Array(parts)
}

/// The reply to a `HELLO`: the server's name and version, the protocol version, mode and role.
pub fn hello_reply(version: u8) -> (r: Value)
    ensures
        r matches Value::Pairs(p) && p@.len() == 5 && is_simple(p@[0].0, "server"@) && is_simple(
            p@[0].1,
            "beyond-kv"@,
        ) && is_simple(p@[1].0, "version"@) && is_simple(p@[1].1, VERSION@) && is_simple(
            p@[2].0,
            "proto"@,
        ) && p@[2].1 == Value::Integer(version as i64) && is_simple(p@[3].0, "mode"@) && is_simple(
            p@[3].1,
            "standalone"@,
        ) && is_simple(p@[4].0, "role"@) && is_simple(p@[4].1, "master"@),
{
    let mut p: Vec<(Value, Value)> = Vec::new();
    p.push((simple("server"), simple("beyond-kv")));
    p.push((simple("version"), simple(VERSION)));
    p.push((simple("proto"), Value::Integer(version as i64)));
    p.push((simple("mode"), simple("standalone")));
    p.push((simple("role"), simple("master")));
    Value::Pairs(p)
}

/// A status line is a short string of these bytes; an error line is its kind, a blank, and the message.
pub proof fn lemma_lines(v: Value, s: Seq<char>, kind: Seq<char>, msg: Seq<char>)
    ensures
        is_simple(v, s) <==> v is SimpleString && v->SimpleString_0@ == encode_utf8(s),
        error_line(kind, msg).take(encode_utf8(kind).len() as int) == encode_utf8(kind),
        error_line(kind, msg)[encode_utf8(kind).len() as int] == ' ' as u8,
        error_line(kind, msg).skip(encode_utf8(kind).len() as int + 1) == encode_utf8(msg),
{
    let n = encode_utf8(kind).len() as int;
    assert(error_line(kind, msg).take(n) =~= encode_utf8(kind));
    assert(error_line(kind, msg).skip(n + 1) =~= encode_utf8(msg));
}

} // verus!
