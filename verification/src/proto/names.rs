//! What each request means, name by name.
use vstd::prelude::*;
use vstd::utf8::{
    encode_utf8, encode_utf8_decode_utf8, is_ascii_chars, is_ascii_chars_encode_utf8,
};

use crate::decimal::{decimal_i64, decimal_u64, lemma_text_reads_back};
use crate::proto::command::{
    arg, args_between, command_of, expiry_option, getex_options, option_text, option_u64,
    pairs_from, scan_options, set_options, setrev_options, spells, upper, upper_byte, Command,
    CommandView, GetExTtl, SetArgs, SetCondition, SetTtl,
};
use crate::proto::error::{ProtoError, ProtoErrorView};
use crate::proto::value::Value;
use crate::text::decimal;

verus! {

/// The value is a string, bulk or simple, of these bytes.
pub open spec fn says(v: Value, b: Seq<u8>) -> bool {
    match v {
        Value::BulkString(x) => x@ == b,
        Value::SimpleString(x) => x@ == b,
        _ => false,
    }
}

/// The bytes are the letters of a word in capitals, each as it is or as a small letter.
pub open spec fn written(name: Seq<u8>, word: Seq<char>) -> bool {
    name.len() == word.len() && forall|i: int|
        0 <= i < word.len() ==> name[i] == (#[trigger] word[i]) as int || name[i] == word[i] as int
            + 32
}

/// The value is a string that is such a word.
pub open spec fn named(v: Value, word: Seq<char>) -> bool {
    exists|name: Seq<u8>| #[trigger] says(v, name) && written(name, word)
}

/// The request is refused for the number of its arguments.
pub open spec fn refused_arity(v: Vec<Value>, cmd: Seq<char>) -> bool {
    command_of(Value::Array(v)) == Err::<CommandView, ProtoErrorView>(
        ProtoErrorView::WrongArity { cmd },
    )
}

/// The request is refused for a number that cannot be read.
pub open spec fn refused_number(v: Vec<Value>, raw: Seq<u8>) -> bool {
    command_of(Value::Array(v)) == Err::<CommandView, ProtoErrorView>(
        ProtoErrorView::InvalidInteger { raw },
    )
}

/// The request is refused for an argument that is no string.
pub open spec fn refused_format(v: Vec<Value>) -> bool {
    command_of(Value::Array(v)) == Err::<CommandView, ProtoErrorView>(
        ProtoErrorView::InvalidFormat { reason: "expected bulk string"@ },
    )
}

/// The request stands for this command.
pub open spec fn means(v: Vec<Value>, c: CommandView) -> bool {
    command_of(Value::Array(v)) == Ok::<CommandView, ProtoErrorView>(c)
}

/// Capital letters only.
spec fn capital(word: Seq<char>) -> bool {
    forall|i: int| 0 <= i < word.len() ==> 'A' <= #[trigger] word[i] <= 'Z'
}

/// A number by which the names of the commands are told apart.
spec fn mark(w: Seq<char>) -> int {
    w.len() + 20 * (w[0] as int) + 2560 * (w[1] as int) + 327680 * (w[w.len() - 1] as int)
        + 41943040 * (w[2] as int)
}

proof fn lemma_names()
    ensures
        capital("GET"@) && mark("GET"@) == 3550918543,
        capital("TTL"@) && mark("TTL"@) == 3212791443,
        capital("PTTL"@) && mark("PTTL"@) == 3548335684,
        capital("PERSIST"@) && mark("PERSIST"@) == 3467032647,
        capital("GETDEL"@) && mark("GETDEL"@) == 3548297106,
        capital("INCR"@) && mark("INCR"@) == 2837254584,
        capital("DECR"@) && mark("DECR"@) == 2837231444,
        capital("REVISION"@) && mark("REVISION"@) == 3632838768,
        capital("EXPIRE"@) && mark("EXPIRE"@) == 3378279786,
        capital("PEXPIRE"@) && mark("PEXPIRE"@) == 3713775687,
        capital("EXPIREAT"@) && mark("EXPIREAT"@) == 3383194988,
        capital("PEXPIREAT"@) && mark("PEXPIREAT"@) == 3718690889,
        capital("INCRBY"@) && mark("INCRBY"@) == 2839548346,
        capital("DECRBY"@) && mark("DECRBY"@) == 2839525206,
        capital("GETSET"@) && mark("GETSET"@) == 3550918546,
        capital("SETNX"@) && mark("SETNX"@) == 3552229505,
        capital("DEL"@) && mark("DEL"@) == 3212752723,
        capital("EXISTS"@) && mark("EXISTS"@) == 3089266026,
        capital("MGET"@) && mark("MGET"@) == 2921778184,
        capital("MSET"@) && mark("MSET"@) == 2921808904,
        capital("SET"@) && mark("SET"@) == 3550918783,
        capital("GETEX"@) && mark("GETEX"@) == 3552229265,
        capital("SETREV"@) && mark("SETREV"@) == 3551574146,
        capital("SCAN"@) && mark("SCAN"@) == 2752029824,
        capital("HELLO"@) && mark("HELLO"@) == 3213735845,
        capital("WATCH"@) && mark("WATCH"@) == 3546976465,
        capital("PWATCH"@) && mark("PWATCH"@) == 2750114886,
        capital("DBSIZE"@) && mark("DBSIZE"@) == 3504052566,
        capital("BGREWRITEAOF"@) && mark("BGREWRITEAOF"@) == 3462449972,
        capital("QUIT"@) && mark("QUIT"@) == 3089586264,
        capital("RESET"@) && mark("RESET"@) == 3508975725,
        capital("UNWATCH"@) && mark("UNWATCH"@) == 3672838827,
        capital("FLUSHDB"@) && mark("FLUSHDB"@) == 3586981247,
        capital("SELECT"@) && mark("SELECT"@) == 3215374466,
        capital("KEYS"@) && mark("KEYS"@) == 3760306144,
        capital("PING"@) && mark("PING"@) == 3295010884,
        capital("COMMAND"@) && mark("COMMAND"@) == 3252099907,
{
    reveal_strlit("GET");
    reveal_strlit("TTL");
    reveal_strlit("PTTL");
    reveal_strlit("PERSIST");
    reveal_strlit("GETDEL");
    reveal_strlit("INCR");
    reveal_strlit("DECR");
    reveal_strlit("REVISION");
    reveal_strlit("EXPIRE");
    reveal_strlit("PEXPIRE");
    reveal_strlit("EXPIREAT");
    reveal_strlit("PEXPIREAT");
    reveal_strlit("INCRBY");
    reveal_strlit("DECRBY");
    reveal_strlit("GETSET");
    reveal_strlit("SETNX");
    reveal_strlit("DEL");
    reveal_strlit("EXISTS");
    reveal_strlit("MGET");
    reveal_strlit("MSET");
    reveal_strlit("SET");
    reveal_strlit("GETEX");
    reveal_strlit("SETREV");
    reveal_strlit("SCAN");
    reveal_strlit("HELLO");
    reveal_strlit("WATCH");
    reveal_strlit("PWATCH");
    reveal_strlit("DBSIZE");
    reveal_strlit("BGREWRITEAOF");
    reveal_strlit("QUIT");
    reveal_strlit("RESET");
    reveal_strlit("UNWATCH");
    reveal_strlit("FLUSHDB");
    reveal_strlit("SELECT");
    reveal_strlit("KEYS");
    reveal_strlit("PING");
    reveal_strlit("COMMAND");
}

/// A string is such a word exactly where its upper case is the word.
proof fn lemma_written(name: Seq<u8>, word: Seq<char>)
    requires
        capital(word),
    ensures
        written(name, word) <==> spells(name, word),
{
    assert(is_ascii_chars(word)) by {
        assert forall|i: int| 0 <= i < word.len() implies (#[trigger] word[i] as u32) <= 127 by {}
    }
    is_ascii_chars_encode_utf8(word);
    let e = encode_utf8(word);
    if written(name, word) {
        assert forall|i: int| 0 <= i < name.len() implies #[trigger] upper(name)[i] == e[i] by {
            assert(upper(name)[i] == upper_byte(name[i]));
            assert('A' <= word[i] <= 'Z');
        }
        assert(upper(name) =~= e);
    }
    if spells(name, word) {
        assert(upper(name).len() == name.len());
        assert forall|i: int| 0 <= i < word.len() implies name[i] == (#[trigger] word[i]) as int
            || name[i] == word[i] as int + 32 by {
            assert(upper(name)[i] == upper_byte(name[i]));
            assert('A' <= word[i] <= 'Z');
        }
    }
}

/// A request with this name has no other.
proof fn lemma_named(v: Seq<Value>, word: Seq<char>)
    requires
        v.len() > 0,
        capital(word),
        named(v[0], word),
    ensures
        arg(v, 0) matches Ok(name) && spells(name, word) && forall|other: Seq<char>| #[trigger]
            spells(name, other) ==> other == word,
{
    let name = choose|name: Seq<u8>| #[trigger] says(v[0], name) && written(name, word);
    assert(arg(v, 0) == Ok::<Seq<u8>, ProtoErrorView>(name));
    lemma_written(name, word);
    assert forall|other: Seq<char>| #[trigger] spells(name, other) implies other == word by {
        encode_utf8_decode_utf8(word);
        encode_utf8_decode_utf8(other);
    }
}

/// The commands on one key: the name says which, and the argument is the key.
pub proof fn lemma_key_requests(v: Vec<Value>, key: Seq<u8>)
    requires
        v@.len() == 2,
        says(v@[1], key),
    ensures
        named(v@[0], "GET"@) ==> means(v, CommandView::Get { key }),
        named(v@[0], "TTL"@) ==> means(v, CommandView::Ttl { key }),
        named(v@[0], "PTTL"@) ==> means(v, CommandView::PTtl { key }),
        named(v@[0], "PERSIST"@) ==> means(v, CommandView::Persist { key }),
        named(v@[0], "GETDEL"@) ==> means(v, CommandView::GetDel { key }),
        named(v@[0], "INCR"@) ==> means(v, CommandView::Incr { key }),
        named(v@[0], "DECR"@) ==> means(v, CommandView::Decr { key }),
        named(v@[0], "REVISION"@) ==> means(v, CommandView::Revision { key }),
{
    lemma_names();
    if named(v@[0], "GET"@) {
        lemma_named(v@, "GET"@);
    }
    if named(v@[0], "TTL"@) {
        lemma_named(v@, "TTL"@);
    }
    if named(v@[0], "PTTL"@) {
        lemma_named(v@, "PTTL"@);
    }
    if named(v@[0], "PERSIST"@) {
        lemma_named(v@, "PERSIST"@);
    }
    if named(v@[0], "GETDEL"@) {
        lemma_named(v@, "GETDEL"@);
    }
    if named(v@[0], "INCR"@) {
        lemma_named(v@, "INCR"@);
    }
    if named(v@[0], "DECR"@) {
        lemma_named(v@, "DECR"@);
    }
    if named(v@[0], "REVISION"@) {
        lemma_named(v@, "REVISION"@);
    }
}

/// The commands on a key and a number: the name says what the number is, seconds or milliseconds,
/// from now or since the Unix epoch, or by how much to count up or down.
pub proof fn lemma_number_requests(v: Vec<Value>, key: Seq<u8>, raw: Seq<u8>)
    requires
        v@.len() == 3,
        says(v@[1], key),
        says(v@[2], raw),
    ensures
        named(v@[0], "EXPIRE"@) ==> match decimal_u64(raw) {
            Some(secs) => means(v, CommandView::Expire { key, secs }),
            None => refused_number(v, raw),
        },
        named(v@[0], "PEXPIRE"@) ==> match decimal_u64(raw) {
            Some(millis) => means(v, CommandView::PExpire { key, millis }),
            None => refused_number(v, raw),
        },
        named(v@[0], "EXPIREAT"@) ==> match decimal_u64(raw) {
            Some(unix_secs) => means(v, CommandView::ExpireAt { key, unix_secs }),
            None => refused_number(v, raw),
        },
        named(v@[0], "PEXPIREAT"@) ==> match decimal_u64(raw) {
            Some(unix_millis) => means(v, CommandView::PExpireAt { key, unix_millis }),
            None => refused_number(v, raw),
        },
        named(v@[0], "INCRBY"@) ==> match decimal_i64(raw) {
            Some(delta) => means(v, CommandView::IncrBy { key, delta }),
            None => refused_number(v, raw),
        },
        named(v@[0], "DECRBY"@) ==> match decimal_i64(raw) {
            Some(delta) => means(v, CommandView::DecrBy { key, delta }),
            None => refused_number(v, raw),
        },
{
    lemma_names();
    if named(v@[0], "EXPIRE"@) {
        lemma_named(v@, "EXPIRE"@);
    }
    if named(v@[0], "PEXPIRE"@) {
        lemma_named(v@, "PEXPIRE"@);
    }
    if named(v@[0], "EXPIREAT"@) {
        lemma_named(v@, "EXPIREAT"@);
    }
    if named(v@[0], "PEXPIREAT"@) {
        lemma_named(v@, "PEXPIREAT"@);
    }
    if named(v@[0], "INCRBY"@) {
        lemma_named(v@, "INCRBY"@);
    }
    if named(v@[0], "DECRBY"@) {
        lemma_named(v@, "DECRBY"@);
    }
}

/// The commands on a key and a value.
pub proof fn lemma_value_requests(v: Vec<Value>, key: Seq<u8>, value: Seq<u8>)
    requires
        v@.len() == 3,
        says(v@[1], key),
        says(v@[2], value),
    ensures
        named(v@[0], "GETSET"@) ==> means(v, CommandView::GetSet { key, value }),
        named(v@[0], "SETNX"@) ==> means(v, CommandView::SetNx { key, value }),
{
    lemma_names();
    if named(v@[0], "GETSET"@) {
        lemma_named(v@, "GETSET"@);
    }
    if named(v@[0], "SETNX"@) {
        lemma_named(v@, "SETNX"@);
    }
}

/// The commands that need no argument; some of them pass over those that they get.
pub proof fn lemma_bare_requests(v: Vec<Value>)
    requires
        v@.len() > 0,
    ensures
        named(v@[0], "DBSIZE"@) ==> means(v, CommandView::DbSize),
        named(v@[0], "BGREWRITEAOF"@) ==> means(v, CommandView::BgRewriteAof),
        named(v@[0], "QUIT"@) ==> means(v, CommandView::Quit),
        named(v@[0], "RESET"@) ==> means(v, CommandView::Reset),
        named(v@[0], "UNWATCH"@) ==> means(v, CommandView::Unwatch),
        named(v@[0], "COMMAND"@) ==> means(v, CommandView::Ping { message: None }),
        named(v@[0], "FLUSHDB"@) && v@.len() == 1 ==> means(v, CommandView::FlushDb),
        named(v@[0], "KEYS"@) && v@.len() == 1 ==> means(v, CommandView::Keys { pattern: None }),
        named(v@[0], "PING"@) && v@.len() == 1 ==> means(v, CommandView::Ping { message: None }),
        named(v@[0], "HELLO"@) && v@.len() == 1 ==> means(v, CommandView::Hello { version: None }),
{
    lemma_names();
    if named(v@[0], "DBSIZE"@) {
        lemma_named(v@, "DBSIZE"@);
    }
    if named(v@[0], "BGREWRITEAOF"@) {
        lemma_named(v@, "BGREWRITEAOF"@);
    }
    if named(v@[0], "QUIT"@) {
        lemma_named(v@, "QUIT"@);
    }
    if named(v@[0], "RESET"@) {
        lemma_named(v@, "RESET"@);
    }
    if named(v@[0], "UNWATCH"@) {
        lemma_named(v@, "UNWATCH"@);
    }
    if named(v@[0], "COMMAND"@) {
        lemma_named(v@, "COMMAND"@);
    }
    if named(v@[0], "FLUSHDB"@) {
        lemma_named(v@, "FLUSHDB"@);
    }
    if named(v@[0], "KEYS"@) {
        lemma_named(v@, "KEYS"@);
    }
    if named(v@[0], "PING"@) {
        lemma_named(v@, "PING"@);
    }
    if named(v@[0], "HELLO"@) {
        lemma_named(v@, "HELLO"@);
    }
}

/// The commands on the connection or the whole database that take an argument.
pub proof fn lemma_server_requests(v: Vec<Value>, b: Seq<u8>)
    requires
        v@.len() >= 2,
        says(v@[1], b),
    ensures
        named(v@[0], "KEYS"@) ==> means(v, CommandView::Keys { pattern: Some(b) }),
        named(v@[0], "PING"@) ==> means(v, CommandView::Ping { message: Some(b) }),
        named(v@[0], "HELLO"@) ==> match decimal_u64(b) {
            Some(n) => if n < 256 {
                means(v, CommandView::Hello { version: Some(n as u8) })
            } else {
                refused_number(v, b)
            },
            None => refused_number(v, b),
        },
        named(v@[0], "SELECT"@) && v@.len() == 2 ==> match decimal_u64(b) {
            Some(db) => means(v, CommandView::Select { db }),
            None => refused_number(v, b),
        },
{
    lemma_names();
    if named(v@[0], "KEYS"@) {
        lemma_named(v@, "KEYS"@);
    }
    if named(v@[0], "PING"@) {
        lemma_named(v@, "PING"@);
    }
    if named(v@[0], "HELLO"@) {
        lemma_named(v@, "HELLO"@);
    }
    if named(v@[0], "SELECT"@) {
        lemma_named(v@, "SELECT"@);
    }
}

/// A request with the wrong number of arguments is refused, under the name of its command.
pub proof fn lemma_arity(v: Vec<Value>)
    requires
        v@.len() > 0,
    ensures
        named(v@[0], "GET"@) && v@.len() != 2 ==> refused_arity(v, "GET"@),
        named(v@[0], "TTL"@) && v@.len() != 2 ==> refused_arity(v, "TTL"@),
        named(v@[0], "PTTL"@) && v@.len() != 2 ==> refused_arity(v, "PTTL"@),
        named(v@[0], "PERSIST"@) && v@.len() != 2 ==> refused_arity(v, "PERSIST"@),
        named(v@[0], "GETDEL"@) && v@.len() != 2 ==> refused_arity(v, "GETDEL"@),
        named(v@[0], "INCR"@) && v@.len() != 2 ==> refused_arity(v, "INCR"@),
        named(v@[0], "DECR"@) && v@.len() != 2 ==> refused_arity(v, "DECR"@),
        named(v@[0], "REVISION"@) && v@.len() != 2 ==> refused_arity(v, "REVISION"@),
        named(v@[0], "SELECT"@) && v@.len() != 2 ==> refused_arity(v, "SELECT"@),
        named(v@[0], "EXPIRE"@) && v@.len() != 3 ==> refused_arity(v, "EXPIRE"@),
        named(v@[0], "PEXPIRE"@) && v@.len() != 3 ==> refused_arity(v, "PEXPIRE"@),
        named(v@[0], "EXPIREAT"@) && v@.len() != 3 ==> refused_arity(v, "EXPIREAT"@),
        named(v@[0], "PEXPIREAT"@) && v@.len() != 3 ==> refused_arity(v, "PEXPIREAT"@),
        named(v@[0], "INCRBY"@) && v@.len() != 3 ==> refused_arity(v, "INCRBY"@),
        named(v@[0], "DECRBY"@) && v@.len() != 3 ==> refused_arity(v, "DECRBY"@),
        named(v@[0], "GETSET"@) && v@.len() != 3 ==> refused_arity(v, "GETSET"@),
        named(v@[0], "SETNX"@) && v@.len() != 3 ==> refused_arity(v, "SETNX"@),
        named(v@[0], "DEL"@) && v@.len() < 2 ==> refused_arity(v, "DEL"@),
        named(v@[0], "EXISTS"@) && v@.len() < 2 ==> refused_arity(v, "EXISTS"@),
        named(v@[0], "MGET"@) && v@.len() < 2 ==> refused_arity(v, "MGET"@),
        named(v@[0], "GETEX"@) && v@.len() < 2 ==> refused_arity(v, "GETEX"@),
        named(v@[0], "SCAN"@) && v@.len() < 2 ==> refused_arity(v, "SCAN"@),
        named(v@[0], "WATCH"@) && v@.len() < 2 ==> refused_arity(v, "WATCH"@),
        named(v@[0], "PWATCH"@) && v@.len() < 2 ==> refused_arity(v, "PWATCH"@),
        named(v@[0], "SET"@) && v@.len() < 3 ==> refused_arity(v, "SET"@),
        named(v@[0], "SETREV"@) && v@.len() < 4 ==> refused_arity(v, "SETREV"@),
        named(v@[0], "MSET"@) && (v@.len() < 3 || v@.len() % 2 == 0) ==> refused_arity(v, "MSET"@),
        named(v@[0], "FLUSHDB"@) && v@.len() != 1 ==> refused_arity(v, "FLUSHDB"@),
{
    lemma_names();
    if named(v@[0], "GET"@) {
        lemma_named(v@, "GET"@);
    }
    if named(v@[0], "TTL"@) {
        lemma_named(v@, "TTL"@);
    }
    if named(v@[0], "PTTL"@) {
        lemma_named(v@, "PTTL"@);
    }
    if named(v@[0], "PERSIST"@) {
        lemma_named(v@, "PERSIST"@);
    }
    if named(v@[0], "GETDEL"@) {
        lemma_named(v@, "GETDEL"@);
    }
    if named(v@[0], "INCR"@) {
        lemma_named(v@, "INCR"@);
    }
    if named(v@[0], "DECR"@) {
        lemma_named(v@, "DECR"@);
    }
    if named(v@[0], "REVISION"@) {
        lemma_named(v@, "REVISION"@);
    }
    if named(v@[0], "SELECT"@) {
        lemma_named(v@, "SELECT"@);
    }
    if named(v@[0], "EXPIRE"@) {
        lemma_named(v@, "EXPIRE"@);
    }
    if named(v@[0], "PEXPIRE"@) {
        lemma_named(v@, "PEXPIRE"@);
    }
    if named(v@[0], "EXPIREAT"@) {
        lemma_named(v@, "EXPIREAT"@);
    }
    if named(v@[0], "PEXPIREAT"@) {
        lemma_named(v@, "PEXPIREAT"@);
    }
    if named(v@[0], "INCRBY"@) {
        lemma_named(v@, "INCRBY"@);
    }
    if named(v@[0], "DECRBY"@) {
        lemma_named(v@, "DECRBY"@);
    }
    if named(v@[0], "GETSET"@) {
        lemma_named(v@, "GETSET"@);
    }
    if named(v@[0], "SETNX"@) {
        lemma_named(v@, "SETNX"@);
    }
    if named(v@[0], "DEL"@) {
        lemma_named(v@, "DEL"@);
    }
    if named(v@[0], "EXISTS"@) {
        lemma_named(v@, "EXISTS"@);
    }
    if named(v@[0], "MGET"@) {
        lemma_named(v@, "MGET"@);
    }
    if named(v@[0], "GETEX"@) {
        lemma_named(v@, "GETEX"@);
    }
    if named(v@[0], "SCAN"@) {
        lemma_named(v@, "SCAN"@);
    }
    if named(v@[0], "WATCH"@) {
        lemma_named(v@, "WATCH"@);
    }
    if named(v@[0], "PWATCH"@) {
        lemma_named(v@, "PWATCH"@);
    }
    if named(v@[0], "SET"@) {
        lemma_named(v@, "SET"@);
    }
    if named(v@[0], "SETREV"@) {
        lemma_named(v@, "SETREV"@);
    }
    if named(v@[0], "MSET"@) {
        lemma_named(v@, "MSET"@);
    }
    if named(v@[0], "FLUSHDB"@) {
        lemma_named(v@, "FLUSHDB"@);
    }
}

/// A request whose first argument is no string is refused.
pub proof fn lemma_first_argument_is_text(v: Vec<Value>)
    requires
        v@.len() >= 2,
        forall|b: Seq<u8>| !says(v@[1], b),
    ensures
        named(v@[0], "GET"@) && v@.len() == 2 ==> refused_format(v),
        named(v@[0], "TTL"@) && v@.len() == 2 ==> refused_format(v),
        named(v@[0], "PTTL"@) && v@.len() == 2 ==> refused_format(v),
        named(v@[0], "PERSIST"@) && v@.len() == 2 ==> refused_format(v),
        named(v@[0], "GETDEL"@) && v@.len() == 2 ==> refused_format(v),
        named(v@[0], "INCR"@) && v@.len() == 2 ==> refused_format(v),
        named(v@[0], "DECR"@) && v@.len() == 2 ==> refused_format(v),
        named(v@[0], "REVISION"@) && v@.len() == 2 ==> refused_format(v),
        named(v@[0], "SELECT"@) && v@.len() == 2 ==> refused_format(v),
        named(v@[0], "EXPIRE"@) && v@.len() == 3 ==> refused_format(v),
        named(v@[0], "PEXPIRE"@) && v@.len() == 3 ==> refused_format(v),
        named(v@[0], "EXPIREAT"@) && v@.len() == 3 ==> refused_format(v),
        named(v@[0], "PEXPIREAT"@) && v@.len() == 3 ==> refused_format(v),
        named(v@[0], "INCRBY"@) && v@.len() == 3 ==> refused_format(v),
        named(v@[0], "DECRBY"@) && v@.len() == 3 ==> refused_format(v),
        named(v@[0], "GETSET"@) && v@.len() == 3 ==> refused_format(v),
        named(v@[0], "SETNX"@) && v@.len() == 3 ==> refused_format(v),
        named(v@[0], "DEL"@) && v@.len() >= 2 ==> refused_format(v),
        named(v@[0], "EXISTS"@) && v@.len() >= 2 ==> refused_format(v),
        named(v@[0], "MGET"@) && v@.len() >= 2 ==> refused_format(v),
        named(v@[0], "GETEX"@) && v@.len() >= 2 ==> refused_format(v),
        named(v@[0], "SCAN"@) && v@.len() >= 2 ==> refused_format(v),
        named(v@[0], "PWATCH"@) && v@.len() >= 2 ==> refused_format(v),
        named(v@[0], "KEYS"@) && v@.len() >= 2 ==> refused_format(v),
        named(v@[0], "PING"@) && v@.len() >= 2 ==> refused_format(v),
        named(v@[0], "HELLO"@) && v@.len() >= 2 ==> refused_format(v),
        named(v@[0], "SET"@) && v@.len() >= 3 ==> refused_format(v),
        named(v@[0], "SETREV"@) && v@.len() >= 4 ==> refused_format(v),
        named(v@[0], "MSET"@) && v@.len() >= 3 && v@.len() % 2 == 1 ==> refused_format(v),
{
    lemma_names();
    match v@[1] {
        Value::BulkString(x) => {
            assert(says(v@[1], x@));
        },
        Value::SimpleString(x) => {
            assert(says(v@[1], x@));
        },
        _ => {},
    }
    assert(named(v@[0], "GET"@) && v@.len() == 2 ==> refused_format(v)) by {
        if named(v@[0], "GET"@) {
            lemma_named(v@, "GET"@);
        }
    }
    assert(named(v@[0], "TTL"@) && v@.len() == 2 ==> refused_format(v)) by {
        if named(v@[0], "TTL"@) {
            lemma_named(v@, "TTL"@);
        }
    }
    assert(named(v@[0], "PTTL"@) && v@.len() == 2 ==> refused_format(v)) by {
        if named(v@[0], "PTTL"@) {
            lemma_named(v@, "PTTL"@);
        }
    }
    assert(named(v@[0], "PERSIST"@) && v@.len() == 2 ==> refused_format(v)) by {
        if named(v@[0], "PERSIST"@) {
            lemma_named(v@, "PERSIST"@);
        }
    }
    assert(named(v@[0], "GETDEL"@) && v@.len() == 2 ==> refused_format(v)) by {
        if named(v@[0], "GETDEL"@) {
            lemma_named(v@, "GETDEL"@);
        }
    }
    assert(named(v@[0], "INCR"@) && v@.len() == 2 ==> refused_format(v)) by {
        if named(v@[0], "INCR"@) {
            lemma_named(v@, "INCR"@);
        }
    }
    assert(named(v@[0], "DECR"@) && v@.len() == 2 ==> refused_format(v)) by {
        if named(v@[0], "DECR"@) {
            lemma_named(v@, "DECR"@);
        }
    }
    assert(named(v@[0], "REVISION"@) && v@.len() == 2 ==> refused_format(v)) by {
        if named(v@[0], "REVISION"@) {
            lemma_named(v@, "REVISION"@);
        }
    }
    assert(named(v@[0], "SELECT"@) && v@.len() == 2 ==> refused_format(v)) by {
        if named(v@[0], "SELECT"@) {
            lemma_named(v@, "SELECT"@);
        }
    }
    assert(named(v@[0], "EXPIRE"@) && v@.len() == 3 ==> refused_format(v)) by {
        if named(v@[0], "EXPIRE"@) {
            lemma_named(v@, "EXPIRE"@);
        }
    }
    assert(named(v@[0], "PEXPIRE"@) && v@.len() == 3 ==> refused_format(v)) by {
        if named(v@[0], "PEXPIRE"@) {
            lemma_named(v@, "PEXPIRE"@);
        }
    }
    assert(named(v@[0], "EXPIREAT"@) && v@.len() == 3 ==> refused_format(v)) by {
        if named(v@[0], "EXPIREAT"@) {
            lemma_named(v@, "EXPIREAT"@);
        }
    }
    assert(named(v@[0], "PEXPIREAT"@) && v@.len() == 3 ==> refused_format(v)) by {
        if named(v@[0], "PEXPIREAT"@) {
            lemma_named(v@, "PEXPIREAT"@);
        }
    }
    assert(named(v@[0], "INCRBY"@) && v@.len() == 3 ==> refused_format(v)) by {
        if named(v@[0], "INCRBY"@) {
            lemma_named(v@, "INCRBY"@);
        }
    }
    assert(named(v@[0], "DECRBY"@) && v@.len() == 3 ==> refused_format(v)) by {
        if named(v@[0], "DECRBY"@) {
            lemma_named(v@, "DECRBY"@);
        }
    }
    assert(named(v@[0], "GETSET"@) && v@.len() == 3 ==> refused_format(v)) by {
        if named(v@[0], "GETSET"@) {
            lemma_named(v@, "GETSET"@);
        }
    }
    assert(named(v@[0], "SETNX"@) && v@.len() == 3 ==> refused_format(v)) by {
        if named(v@[0], "SETNX"@) {
            lemma_named(v@, "SETNX"@);
        }
    }
    assert(named(v@[0], "DEL"@) && v@.len() >= 2 ==> refused_format(v)) by {
        if named(v@[0], "DEL"@) {
            lemma_named(v@, "DEL"@);
        }
    }
    assert(named(v@[0], "EXISTS"@) && v@.len() >= 2 ==> refused_format(v)) by {
        if named(v@[0], "EXISTS"@) {
            lemma_named(v@, "EXISTS"@);
        }
    }
    assert(named(v@[0], "MGET"@) && v@.len() >= 2 ==> refused_format(v)) by {
        if named(v@[0], "MGET"@) {
            lemma_named(v@, "MGET"@);
        }
    }
    assert(named(v@[0], "GETEX"@) && v@.len() >= 2 ==> refused_format(v)) by {
        if named(v@[0], "GETEX"@) {
            lemma_named(v@, "GETEX"@);
        }
    }
    assert(named(v@[0], "SCAN"@) && v@.len() >= 2 ==> refused_format(v)) by {
        if named(v@[0], "SCAN"@) {
            lemma_named(v@, "SCAN"@);
        }
    }
    assert(named(v@[0], "PWATCH"@) && v@.len() >= 2 ==> refused_format(v)) by {
        if named(v@[0], "PWATCH"@) {
            lemma_named(v@, "PWATCH"@);
        }
    }
    assert(named(v@[0], "KEYS"@) && v@.len() >= 2 ==> refused_format(v)) by {
        if named(v@[0], "KEYS"@) {
            lemma_named(v@, "KEYS"@);
        }
    }
    assert(named(v@[0], "PING"@) && v@.len() >= 2 ==> refused_format(v)) by {
        if named(v@[0], "PING"@) {
            lemma_named(v@, "PING"@);
        }
    }
    assert(named(v@[0], "HELLO"@) && v@.len() >= 2 ==> refused_format(v)) by {
        if named(v@[0], "HELLO"@) {
            lemma_named(v@, "HELLO"@);
        }
    }
    assert(named(v@[0], "SET"@) && v@.len() >= 3 ==> refused_format(v)) by {
        if named(v@[0], "SET"@) {
            lemma_named(v@, "SET"@);
        }
    }
    assert(named(v@[0], "SETREV"@) && v@.len() >= 4 ==> refused_format(v)) by {
        if named(v@[0], "SETREV"@) {
            lemma_named(v@, "SETREV"@);
        }
    }
    assert(named(v@[0], "MSET"@) && v@.len() >= 3 && v@.len() % 2 == 1 ==> refused_format(v)) by {
        if named(v@[0], "MSET"@) {
            lemma_named(v@, "MSET"@);
        }
    }
}

/// A name that is no command's is refused, and given back as it was written.
pub proof fn lemma_unknown_name(v: Vec<Value>, name: Seq<u8>)
    requires
        v@.len() > 0,
        says(v@[0], name),
        !written(name, "GET"@),
        !written(name, "TTL"@),
        !written(name, "PTTL"@),
        !written(name, "PERSIST"@),
        !written(name, "GETDEL"@),
        !written(name, "INCR"@),
        !written(name, "DECR"@),
        !written(name, "REVISION"@),
        !written(name, "EXPIRE"@),
        !written(name, "PEXPIRE"@),
        !written(name, "EXPIREAT"@),
        !written(name, "PEXPIREAT"@),
        !written(name, "INCRBY"@),
        !written(name, "DECRBY"@),
        !written(name, "GETSET"@),
        !written(name, "SETNX"@),
        !written(name, "DEL"@),
        !written(name, "EXISTS"@),
        !written(name, "MGET"@),
        !written(name, "MSET"@),
        !written(name, "SET"@),
        !written(name, "GETEX"@),
        !written(name, "SETREV"@),
        !written(name, "SCAN"@),
        !written(name, "HELLO"@),
        !written(name, "WATCH"@),
        !written(name, "PWATCH"@),
        !written(name, "DBSIZE"@),
        !written(name, "BGREWRITEAOF"@),
        !written(name, "QUIT"@),
        !written(name, "RESET"@),
        !written(name, "UNWATCH"@),
        !written(name, "FLUSHDB"@),
        !written(name, "SELECT"@),
        !written(name, "KEYS"@),
        !written(name, "PING"@),
        !written(name, "COMMAND"@),
    ensures
        command_of(Value::Array(v)) == Err::<CommandView, ProtoErrorView>(
            ProtoErrorView::UnknownCommand { cmd: name },
        ),
{
    lemma_names();
    lemma_written(name, "GET"@);
    lemma_written(name, "TTL"@);
    lemma_written(name, "PTTL"@);
    lemma_written(name, "PERSIST"@);
    lemma_written(name, "GETDEL"@);
    lemma_written(name, "INCR"@);
    lemma_written(name, "DECR"@);
    lemma_written(name, "REVISION"@);
    lemma_written(name, "EXPIRE"@);
    lemma_written(name, "PEXPIRE"@);
    lemma_written(name, "EXPIREAT"@);
    lemma_written(name, "PEXPIREAT"@);
    lemma_written(name, "INCRBY"@);
    lemma_written(name, "DECRBY"@);
    lemma_written(name, "GETSET"@);
    lemma_written(name, "SETNX"@);
    lemma_written(name, "DEL"@);
    lemma_written(name, "EXISTS"@);
    lemma_written(name, "MGET"@);
    lemma_written(name, "MSET"@);
    lemma_written(name, "SET"@);
    lemma_written(name, "GETEX"@);
    lemma_written(name, "SETREV"@);
    lemma_written(name, "SCAN"@);
    lemma_written(name, "HELLO"@);
    lemma_written(name, "WATCH"@);
    lemma_written(name, "PWATCH"@);
    lemma_written(name, "DBSIZE"@);
    lemma_written(name, "BGREWRITEAOF"@);
    lemma_written(name, "QUIT"@);
    lemma_written(name, "RESET"@);
    lemma_written(name, "UNWATCH"@);
    lemma_written(name, "FLUSHDB"@);
    lemma_written(name, "SELECT"@);
    lemma_written(name, "KEYS"@);
    lemma_written(name, "PING"@);
    lemma_written(name, "COMMAND"@);
    assert(arg(v@, 0) == Ok::<Seq<u8>, ProtoErrorView>(name));
}

/// What is no list, an empty list, or a list that begins with no string is refused.
pub proof fn lemma_no_request(v: Value)
    ensures
        !(v is Array) || v->Array_0@.len() == 0 ==> command_of(v) == Err::<
            CommandView,
            ProtoErrorView,
        >(ProtoErrorView::InvalidFormat { reason: "expected non-empty array"@ }),
        v is Array && v->Array_0@.len() > 0 && (forall|b: Seq<u8>| !says(v->Array_0@[0], b))
            ==> command_of(v) == Err::<CommandView, ProtoErrorView>(
            ProtoErrorView::InvalidFormat { reason: "expected bulk string"@ },
        ),
{
    if let Value::Array(a) = v {
        match a@[0] {
            Value::BulkString(x) => {
                assert(says(a@[0], x@));
            },
            Value::SimpleString(x) => {
                assert(says(a@[0], x@));
            },
            _ => {},
        }
    }
}

/// The kind of a command tells the name of its request: different names stand for different kinds of
/// command, but for `COMMAND`, which is answered as a `PING` is.
pub proof fn lemma_kind_tells_name(v: Vec<Value>, c: CommandView)
    requires
        means(v, c),
    ensures
        v@.len() > 0,
        c is Get <==> named(v@[0], "GET"@),
        c is SetKey <==> named(v@[0], "SET"@),
        c is Del <==> named(v@[0], "DEL"@),
        c is Exists <==> named(v@[0], "EXISTS"@),
        c is Expire <==> named(v@[0], "EXPIRE"@),
        c is PExpire <==> named(v@[0], "PEXPIRE"@),
        c is ExpireAt <==> named(v@[0], "EXPIREAT"@),
        c is PExpireAt <==> named(v@[0], "PEXPIREAT"@),
        c is Ttl <==> named(v@[0], "TTL"@),
        c is PTtl <==> named(v@[0], "PTTL"@),
        c is Persist <==> named(v@[0], "PERSIST"@),
        c is Keys <==> named(v@[0], "KEYS"@),
        c is Scan <==> named(v@[0], "SCAN"@),
        c is MGet <==> named(v@[0], "MGET"@),
        c is MSet <==> named(v@[0], "MSET"@),
        c is GetSet <==> named(v@[0], "GETSET"@),
        c is SetNx <==> named(v@[0], "SETNX"@),
        c is GetDel <==> named(v@[0], "GETDEL"@),
        c is GetEx <==> named(v@[0], "GETEX"@),
        c is Incr <==> named(v@[0], "INCR"@),
        c is IncrBy <==> named(v@[0], "INCRBY"@),
        c is Decr <==> named(v@[0], "DECR"@),
        c is DecrBy <==> named(v@[0], "DECRBY"@),
        c is Hello <==> named(v@[0], "HELLO"@),
        c is Select <==> named(v@[0], "SELECT"@),
        c is DbSize <==> named(v@[0], "DBSIZE"@),
        c is FlushDb <==> named(v@[0], "FLUSHDB"@),
        c is BgRewriteAof <==> named(v@[0], "BGREWRITEAOF"@),
        c is Quit <==> named(v@[0], "QUIT"@),
        c is Reset <==> named(v@[0], "RESET"@),
        c is Watch <==> named(v@[0], "WATCH"@),
        c is PWatch <==> named(v@[0], "PWATCH"@),
        c is Unwatch <==> named(v@[0], "UNWATCH"@),
        c is Revision <==> named(v@[0], "REVISION"@),
        c is SetRev <==> named(v@[0], "SETREV"@),
        c is Ping <==> named(v@[0], "PING"@) || named(v@[0], "COMMAND"@),
{
    lemma_names();
    let name = arg(v@, 0)->Ok_0;
    assert(says(v@[0], name));
    lemma_written(name, "GET"@);
    lemma_written(name, "TTL"@);
    lemma_written(name, "PTTL"@);
    lemma_written(name, "PERSIST"@);
    lemma_written(name, "GETDEL"@);
    lemma_written(name, "INCR"@);
    lemma_written(name, "DECR"@);
    lemma_written(name, "REVISION"@);
    lemma_written(name, "EXPIRE"@);
    lemma_written(name, "PEXPIRE"@);
    lemma_written(name, "EXPIREAT"@);
    lemma_written(name, "PEXPIREAT"@);
    lemma_written(name, "INCRBY"@);
    lemma_written(name, "DECRBY"@);
    lemma_written(name, "GETSET"@);
    lemma_written(name, "SETNX"@);
    lemma_written(name, "DEL"@);
    lemma_written(name, "EXISTS"@);
    lemma_written(name, "MGET"@);
    lemma_written(name, "MSET"@);
    lemma_written(name, "SET"@);
    lemma_written(name, "GETEX"@);
    lemma_written(name, "SETREV"@);
    lemma_written(name, "SCAN"@);
    lemma_written(name, "HELLO"@);
    lemma_written(name, "WATCH"@);
    lemma_written(name, "PWATCH"@);
    lemma_written(name, "DBSIZE"@);
    lemma_written(name, "BGREWRITEAOF"@);
    lemma_written(name, "QUIT"@);
    lemma_written(name, "RESET"@);
    lemma_written(name, "UNWATCH"@);
    lemma_written(name, "FLUSHDB"@);
    lemma_written(name, "SELECT"@);
    lemma_written(name, "KEYS"@);
    lemma_written(name, "PING"@);
    lemma_written(name, "COMMAND"@);
    if named(v@[0], "GET"@) {
        lemma_named(v@, "GET"@);
    }
    if named(v@[0], "TTL"@) {
        lemma_named(v@, "TTL"@);
    }
    if named(v@[0], "PTTL"@) {
        lemma_named(v@, "PTTL"@);
    }
    if named(v@[0], "PERSIST"@) {
        lemma_named(v@, "PERSIST"@);
    }
    if named(v@[0], "GETDEL"@) {
        lemma_named(v@, "GETDEL"@);
    }
    if named(v@[0], "INCR"@) {
        lemma_named(v@, "INCR"@);
    }
    if named(v@[0], "DECR"@) {
        lemma_named(v@, "DECR"@);
    }
    if named(v@[0], "REVISION"@) {
        lemma_named(v@, "REVISION"@);
    }
    if named(v@[0], "EXPIRE"@) {
        lemma_named(v@, "EXPIRE"@);
    }
    if named(v@[0], "PEXPIRE"@) {
        lemma_named(v@, "PEXPIRE"@);
    }
    if named(v@[0], "EXPIREAT"@) {
        lemma_named(v@, "EXPIREAT"@);
    }
    if named(v@[0], "PEXPIREAT"@) {
        lemma_named(v@, "PEXPIREAT"@);
    }
    if named(v@[0], "INCRBY"@) {
        lemma_named(v@, "INCRBY"@);
    }
    if named(v@[0], "DECRBY"@) {
        lemma_named(v@, "DECRBY"@);
    }
    if named(v@[0], "GETSET"@) {
        lemma_named(v@, "GETSET"@);
    }
    if named(v@[0], "SETNX"@) {
        lemma_named(v@, "SETNX"@);
    }
    if named(v@[0], "DEL"@) {
        lemma_named(v@, "DEL"@);
    }
    if named(v@[0], "EXISTS"@) {
        lemma_named(v@, "EXISTS"@);
    }
    if named(v@[0], "MGET"@) {
        lemma_named(v@, "MGET"@);
    }
    if named(v@[0], "MSET"@) {
        lemma_named(v@, "MSET"@);
    }
    if named(v@[0], "SET"@) {
        lemma_named(v@, "SET"@);
    }
    if named(v@[0], "GETEX"@) {
        lemma_named(v@, "GETEX"@);
    }
    if named(v@[0], "SETREV"@) {
        lemma_named(v@, "SETREV"@);
    }
    if named(v@[0], "SCAN"@) {
        lemma_named(v@, "SCAN"@);
    }
    if named(v@[0], "HELLO"@) {
        lemma_named(v@, "HELLO"@);
    }
    if named(v@[0], "WATCH"@) {
        lemma_named(v@, "WATCH"@);
    }
    if named(v@[0], "PWATCH"@) {
        lemma_named(v@, "PWATCH"@);
    }
    if named(v@[0], "DBSIZE"@) {
        lemma_named(v@, "DBSIZE"@);
    }
    if named(v@[0], "BGREWRITEAOF"@) {
        lemma_named(v@, "BGREWRITEAOF"@);
    }
    if named(v@[0], "QUIT"@) {
        lemma_named(v@, "QUIT"@);
    }
    if named(v@[0], "RESET"@) {
        lemma_named(v@, "RESET"@);
    }
    if named(v@[0], "UNWATCH"@) {
        lemma_named(v@, "UNWATCH"@);
    }
    if named(v@[0], "FLUSHDB"@) {
        lemma_named(v@, "FLUSHDB"@);
    }
    if named(v@[0], "SELECT"@) {
        lemma_named(v@, "SELECT"@);
    }
    if named(v@[0], "KEYS"@) {
        lemma_named(v@, "KEYS"@);
    }
    if named(v@[0], "PING"@) {
        lemma_named(v@, "PING"@);
    }
    if named(v@[0], "COMMAND"@) {
        lemma_named(v@, "COMMAND"@);
    }
}

/// What a command is said to be is what it is: its kind, and each of its fields.
pub proof fn lemma_command_views(c: Command)
    ensures
        match c {
            Command::Get { key } => c@ == (CommandView::Get { key: key@ }),
            Command::Expire { key, secs } => c@ == (CommandView::Expire { key: key@, secs }),
            Command::PExpire { key, millis } => c@ == (CommandView::PExpire { key: key@, millis }),
            Command::ExpireAt { key, unix_secs } => c@ == (CommandView::ExpireAt { key: key@, unix_secs }),
            Command::PExpireAt { key, unix_millis } => c@ == (CommandView::PExpireAt { key: key@, unix_millis }),
            Command::Ttl { key } => c@ == (CommandView::Ttl { key: key@ }),
            Command::PTtl { key } => c@ == (CommandView::PTtl { key: key@ }),
            Command::Persist { key } => c@ == (CommandView::Persist { key: key@ }),
            Command::GetSet { key, value } => c@ == (CommandView::GetSet { key: key@, value: value@ }),
            Command::SetNx { key, value } => c@ == (CommandView::SetNx { key: key@, value: value@ }),
            Command::GetDel { key } => c@ == (CommandView::GetDel { key: key@ }),
            Command::GetEx { key, ttl } => c@ == (CommandView::GetEx { key: key@, ttl }),
            Command::Incr { key } => c@ == (CommandView::Incr { key: key@ }),
            Command::IncrBy { key, delta } => c@ == (CommandView::IncrBy { key: key@, delta }),
            Command::Decr { key } => c@ == (CommandView::Decr { key: key@ }),
            Command::DecrBy { key, delta } => c@ == (CommandView::DecrBy { key: key@, delta }),
            Command::Hello { version } => c@ == (CommandView::Hello { version }),
            Command::Select { db } => c@ == (CommandView::Select { db }),
            Command::DbSize => c@ == CommandView::DbSize,
            Command::FlushDb => c@ == CommandView::FlushDb,
            Command::BgRewriteAof => c@ == CommandView::BgRewriteAof,
            Command::Quit => c@ == CommandView::Quit,
            Command::Reset => c@ == CommandView::Reset,
            Command::PWatch { prefix, since } => c@ == (CommandView::PWatch { prefix: prefix@, since }),
            Command::Unwatch => c@ == CommandView::Unwatch,
            Command::Revision { key } => c@ == (CommandView::Revision { key: key@ }),
            Command::SetRev { key, value, revision, ttl } => c@ == (CommandView::SetRev { key: key@, value: value@, revision, ttl }),
            Command::SetKey { key, value, args } => c@ == (CommandView::SetKey { key: key@, value: value@, args }),
            Command::Del { keys } => c@ is Del && c@->Del_keys.len() == keys@.len() && forall|i: int|
                0 <= i < keys@.len() ==> c@->Del_keys[i] == (#[trigger] keys@[i])@,
            Command::Exists { keys } => c@ is Exists && c@->Exists_keys.len() == keys@.len() && forall|i: int|
                0 <= i < keys@.len() ==> c@->Exists_keys[i] == (#[trigger] keys@[i])@,
            Command::MGet { keys } => c@ is MGet && c@->MGet_keys.len() == keys@.len() && forall|i: int|
                0 <= i < keys@.len() ==> c@->MGet_keys[i] == (#[trigger] keys@[i])@,
            Command::Watch { keys, since } => c@ is Watch && c@->Watch_since == since
                && c@->Watch_keys.len() == keys@.len() && forall|i: int|
                0 <= i < keys@.len() ==> c@->Watch_keys[i] == (#[trigger] keys@[i])@,
            Command::MSet { pairs } => c@ is MSet && c@->pairs.len() == pairs@.len() && forall|i: int|
                0 <= i < pairs@.len() ==> c@->pairs[i].0 == (#[trigger] pairs@[i]).0@
                    && c@->pairs[i].1 == pairs@[i].1@,
            Command::Keys { pattern: None } => c@ == (CommandView::Keys { pattern: None }),
            Command::Keys { pattern: Some(p) } => c@ == (CommandView::Keys { pattern: Some(p@) }),
            Command::Ping { message: None } => c@ == (CommandView::Ping { message: None }),
            Command::Ping { message: Some(p) } => c@ == (CommandView::Ping { message: Some(p@) }),
            Command::Scan { cursor, args } => c@ == (CommandView::Scan {
                cursor: cursor@,
                pattern: match args.pattern {
                    Some(p) => Some(p@),
                    None => None,
                },
                count: args.count,
            }),
        },
{
}

/// What an error is said to be is what it is.
pub proof fn lemma_error_views(e: ProtoError)
    ensures
        match e {
            ProtoError::WrongArity { cmd } => e@ == (ProtoErrorView::WrongArity { cmd: cmd@ }),
            ProtoError::InvalidInteger { raw } => e@ == (ProtoErrorView::InvalidInteger {
                raw: raw@,
            }),
            ProtoError::InvalidExpiry { raw } => e@ == (ProtoErrorView::InvalidExpiry {
                raw: raw@,
            }),
            ProtoError::Syntax { token } => e@ == (ProtoErrorView::Syntax { token: token@ }),
            ProtoError::UnknownCommand { cmd } => e@ == (ProtoErrorView::UnknownCommand {
                cmd: cmd@,
            }),
            ProtoError::InvalidFormat { reason } => e@ == (ProtoErrorView::InvalidFormat {
                reason: reason@,
            }),
            ProtoError::DbIndexOutOfRange => e@ == ProtoErrorView::DbIndexOutOfRange,
        },
{
}

/// The string at `i` that is such a word is no other.
proof fn lemma_named_at(v: Seq<Value>, i: int, word: Seq<char>)
    requires
        0 <= i < v.len(),
        capital(word),
        named(v[i], word),
    ensures
        arg(v, i) matches Ok(name) && spells(name, word) && forall|other: Seq<char>| #[trigger]
            spells(name, other) ==> other == word,
{
    let name = choose|name: Seq<u8>| #[trigger] says(v[i], name) && written(name, word);
    assert(arg(v, i) == Ok::<Seq<u8>, ProtoErrorView>(name));
    lemma_written(name, word);
    assert forall|other: Seq<char>| #[trigger] spells(name, other) implies other == word by {
        encode_utf8_decode_utf8(word);
        encode_utf8_decode_utf8(other);
    }
}

/// The strings from `i` on are these.
pub open spec fn say_from(v: Seq<Value>, i: int, texts: Seq<Seq<u8>>) -> bool {
    v.len() == i + texts.len() && forall|j: int|
        0 <= j < texts.len() ==> says(v[i + j], #[trigger] texts[j])
}

proof fn lemma_args_read(v: Seq<Value>, i: int, end: int, texts: Seq<Seq<u8>>)
    requires
        0 <= i <= end <= v.len(),
        texts.len() == end - i,
        forall|j: int| 0 <= j < texts.len() ==> says(v[i + j], #[trigger] texts[j]),
    ensures
        args_between(v, i, end) == Ok::<Seq<Seq<u8>>, ProtoErrorView>(texts),
    decreases end - i,
{
    if i < end {
        assert(says(v[i + 0], texts[0]));
        let rest = texts.skip(1);
        assert forall|j: int| 0 <= j < rest.len() implies says(v[i + 1 + j], #[trigger] rest[j]) by {
            assert(says(v[i + (j + 1)], texts[j + 1]));
        }
        lemma_args_read(v, i + 1, end, rest);
        assert(texts =~= seq![texts[0]] + rest);
    } else {
        assert(texts =~= seq![]);
    }
}

/// The commands on several keys take all of them, in order.
pub proof fn lemma_keys_requests(v: Vec<Value>, keys: Seq<Seq<u8>>)
    requires
        keys.len() > 0,
        say_from(v@, 1, keys),
    ensures
        named(v@[0], "DEL"@) ==> means(v, CommandView::Del { keys }),
        named(v@[0], "EXISTS"@) ==> means(v, CommandView::Exists { keys }),
        named(v@[0], "MGET"@) ==> means(v, CommandView::MGet { keys }),
{
    lemma_names();
    lemma_args_read(v@, 1, v@.len() as int, keys);
    if named(v@[0], "DEL"@) {
        lemma_named(v@, "DEL"@);
    }
    if named(v@[0], "EXISTS"@) {
        lemma_named(v@, "EXISTS"@);
    }
    if named(v@[0], "MGET"@) {
        lemma_named(v@, "MGET"@);
    }
}

proof fn lemma_pairs_read(v: Seq<Value>, i: int, texts: Seq<Seq<u8>>, pairs: Seq<(Seq<u8>, Seq<u8>)>)
    requires
        0 <= i,
        say_from(v, i, texts),
        texts.len() == 2 * pairs.len(),
        forall|j: int|
            0 <= j < pairs.len() ==> (#[trigger] pairs[j]).0 == texts[2 * j] && pairs[j].1
                == texts[2 * j + 1],
    ensures
        pairs_from(v, i) == Ok::<Seq<(Seq<u8>, Seq<u8>)>, ProtoErrorView>(pairs),
    decreases pairs.len(),
{
    if pairs.len() > 0 {
        assert(pairs[0].0 == texts[2 * 0int]);
        assert(says(v[i + 0], texts[0]));
        assert(says(v[i + 1], texts[1]));
        let rest = texts.skip(2);
        assert forall|j: int| 0 <= j < rest.len() implies says(v[i + 2 + j], #[trigger] rest[j]) by {
            assert(says(v[i + (j + 2)], texts[j + 2]));
        }
        let others = pairs.skip(1);
        assert forall|j: int| 0 <= j < others.len() implies (#[trigger] others[j]).0 == rest[2 * j]
            && others[j].1 == rest[2 * j + 1] by {
            assert(pairs[j + 1].0 == texts[2 * (j + 1)]);
        }
        lemma_pairs_read(v, i + 2, rest, others);
        assert(pairs =~= seq![pairs[0]] + others);
    } else {
        assert(pairs =~= seq![]);
    }
}

/// `MSET` takes its arguments two by two, a key and its value.
pub proof fn lemma_mset_requests(
    v: Vec<Value>,
    texts: Seq<Seq<u8>>,
    pairs: Seq<(Seq<u8>, Seq<u8>)>,
)
    requires
        named(v@[0], "MSET"@),
        say_from(v@, 1, texts),
        pairs.len() > 0,
        texts.len() == 2 * pairs.len(),
        forall|j: int|
            0 <= j < pairs.len() ==> (#[trigger] pairs[j]).0 == texts[2 * j] && pairs[j].1
                == texts[2 * j + 1],
    ensures
        means(v, CommandView::MSet { pairs }),
{
    lemma_names();
    lemma_named(v@, "MSET"@);
    lemma_pairs_read(v@, 1, texts, pairs);
}

/// A number by which the names of the options are told apart.
spec fn option_mark(w: Seq<char>) -> int {
    w.len() + 20 * (w[0] as int) + 2560 * (w[1] as int)
}

proof fn lemma_options()
    ensures
        capital("EX"@) && option_mark("EX"@) == 226662,
        capital("PX"@) && option_mark("PX"@) == 226882,
        capital("EXAT"@) && option_mark("EXAT"@) == 226664,
        capital("PXAT"@) && option_mark("PXAT"@) == 226884,
        capital("NX"@) && option_mark("NX"@) == 226842,
        capital("XX"@) && option_mark("XX"@) == 227042,
        capital("GET"@) && option_mark("GET"@) == 178063,
        capital("KEEPTTL"@) && option_mark("KEEPTTL"@) == 178147,
        capital("REV"@) && option_mark("REV"@) == 178283,
        capital("PERSIST"@) && option_mark("PERSIST"@) == 178247,
        capital("MATCH"@) && option_mark("MATCH"@) == 167945,
        capital("COUNT"@) && option_mark("COUNT"@) == 203585,
        capital("SINCE"@) && option_mark("SINCE"@) == 188545,
{
    reveal_strlit("EX");
    reveal_strlit("PX");
    reveal_strlit("EXAT");
    reveal_strlit("PXAT");
    reveal_strlit("NX");
    reveal_strlit("XX");
    reveal_strlit("GET");
    reveal_strlit("KEEPTTL");
    reveal_strlit("REV");
    reveal_strlit("PERSIST");
    reveal_strlit("MATCH");
    reveal_strlit("COUNT");
    reveal_strlit("SINCE");
}

/// `WATCH` takes its keys, and behind the word `SINCE` the revision from which on; `SINCE` alone is
/// no key.
pub proof fn lemma_watch_requests(v: Vec<Value>, keys: Seq<Seq<u8>>, raw: Seq<u8>)
    requires
        keys.len() > 0,
        v@.len() > keys.len(),
        named(v@[0], "WATCH"@),
        forall|j: int| 0 <= j < keys.len() ==> says(v@[1 + j], #[trigger] keys[j]),
    ensures
        v@.len() == keys.len() + 1 && !(keys.len() >= 2 && written(keys[keys.len() - 2], "SINCE"@))
            ==> means(v, CommandView::Watch { keys, since: None }),
        v@.len() == keys.len() + 3 && named(v@[v@.len() - 2], "SINCE"@) && says(v@.last(), raw)
            ==> match decimal_u64(raw) {
            Some(n) => means(v, CommandView::Watch { keys, since: Some(n) }),
            None => refused_number(v, raw),
        },
        v@.len() == 3 && named(v@[1], "SINCE"@) ==> refused_arity(v, "WATCH"@),
{
    lemma_names();
    lemma_options();
    lemma_named(v@, "WATCH"@);
    lemma_args_read(v@, 1, keys.len() as int + 1, keys);
    let n = v@.len() as int;
    if n == keys.len() + 1 && keys.len() >= 2 {
        assert(says(v@[1 + (n - 3)], keys[n - 3]));
        lemma_written(keys[n - 3], "SINCE"@);
    }
    if n >= 3 && named(v@[n - 2], "SINCE"@) {
        lemma_named_at(v@, n - 2, "SINCE"@);
    }
}

/// `PWATCH` takes a prefix, and behind the word `SINCE` the revision from which on.
pub proof fn lemma_pwatch_requests(v: Vec<Value>, prefix: Seq<u8>, opt: Seq<u8>, raw: Seq<u8>)
    requires
        v@.len() >= 2,
        named(v@[0], "PWATCH"@),
        says(v@[1], prefix),
    ensures
        v@.len() < 4 ==> means(v, CommandView::PWatch { prefix, since: None }),
        v@.len() >= 4 && says(v@[2], opt) && !written(opt, "SINCE"@) ==> means(
            v,
            CommandView::PWatch { prefix, since: None },
        ),
        v@.len() >= 4 && says(v@[2], opt) && written(opt, "SINCE"@) && says(v@[3], raw)
            ==> match decimal_u64(raw) {
            Some(n) => means(v, CommandView::PWatch { prefix, since: Some(n) }),
            None => refused_number(v, raw),
        },
{
    lemma_names();
    lemma_options();
    lemma_named(v@, "PWATCH"@);
    lemma_written(opt, "SINCE"@);
}

/// The expiry that the name of an option and a number ask for: seconds or milliseconds from now, or
/// since the Unix epoch.
pub open spec fn expiry_named(v: Value, n: u64) -> Option<SetTtl> {
    if named(v, "EX"@) {
        Some(SetTtl::Seconds(n))
    } else if named(v, "PX"@) {
        Some(SetTtl::Millis(n))
    } else if named(v, "EXAT"@) {
        Some(SetTtl::UnixSecs(n))
    } else if named(v, "PXAT"@) {
        Some(SetTtl::UnixMillis(n))
    } else {
        None
    }
}

/// The request is refused for an option that its command does not have.
pub open spec fn refused_option(v: Vec<Value>, token: Seq<u8>) -> bool {
    command_of(Value::Array(v)) == Err::<CommandView, ProtoErrorView>(
        ProtoErrorView::Syntax { token },
    )
}

/// The request is refused for a lifetime of nothing.
pub open spec fn refused_expiry(v: Vec<Value>, raw: Seq<u8>) -> bool {
    command_of(Value::Array(v)) == Err::<CommandView, ProtoErrorView>(
        ProtoErrorView::InvalidExpiry { raw },
    )
}

/// The expiry options, as the grammar reads them.
proof fn lemma_expiry_read(v: Seq<Value>, i: int, cmd: Seq<char>)
    requires
        0 <= i < v.len(),
    ensures
        arg(v, i) matches Ok(opt) ==> {
            &&& expiry_named(v[i], 0) is Some <==> expiry_option(v, i, opt, cmd) is Some
            &&& expiry_named(v[i], 0) is Some && i + 1 == v.len() ==> expiry_option(
                v,
                i,
                opt,
                cmd,
            ) == Some(Err::<SetTtl, ProtoErrorView>(ProtoErrorView::WrongArity { cmd }))
            &&& forall|raw: Seq<u8>|
                expiry_named(v[i], 0) is Some && i + 1 < v.len() && #[trigger] says(v[i + 1], raw)
                    ==> expiry_option(v, i, opt, cmd) == Some(
                    match decimal_u64(raw) {
                        None => Err(ProtoErrorView::InvalidInteger { raw }),
                        Some(n) => if n == 0 && (named(v[i], "EX"@) || named(v[i], "PX"@)) {
                            Err(ProtoErrorView::InvalidExpiry { raw })
                        } else {
                            Ok(expiry_named(v[i], n)->0)
                        },
                    },
                )
        },
{
    lemma_options();
    if let Ok(opt) = arg(v, i) {
        assert(says(v[i], opt));
        lemma_written(opt, "EX"@);
        lemma_written(opt, "PX"@);
        lemma_written(opt, "EXAT"@);
        lemma_written(opt, "PXAT"@);
        if named(v[i], "EX"@) {
            lemma_named_at(v, i, "EX"@);
        }
        if named(v[i], "PX"@) {
            lemma_named_at(v, i, "PX"@);
        }
        if named(v[i], "EXAT"@) {
            lemma_named_at(v, i, "EXAT"@);
        }
        if named(v[i], "PXAT"@) {
            lemma_named_at(v, i, "PXAT"@);
        }
        assert forall|raw: Seq<u8>| i + 1 < v.len() && #[trigger] says(v[i + 1], raw) implies arg(
            v,
            i + 1,
        ) == Ok::<Seq<u8>, ProtoErrorView>(raw) by {}
    }
}

/// Reading options goes on where it stood when more of them follow.
proof fn lemma_set_options_go_on(v: Seq<Value>, w: Seq<Value>, i: int, acc: SetArgs, r: SetArgs)
    requires
        0 <= i <= v.len() <= w.len(),
        w.take(v.len() as int) == v,
        set_options(v, i, acc) == Ok::<SetArgs, ProtoErrorView>(r),
    ensures
        set_options(w, i, acc) == set_options(w, v.len() as int, r),
    decreases v.len() - i,
{
    if i < v.len() {
        assert(w[i] == w.take(v.len() as int)[i]);
        if i + 1 < v.len() {
            assert(w[i + 1] == w.take(v.len() as int)[i + 1]);
        }
        let opt = arg(v, i)->Ok_0;
        assert(expiry_option(w, i, opt, "SET"@) == expiry_option(v, i, opt, "SET"@));
        match expiry_option(v, i, opt, "SET"@) {
            Some(Ok(t)) => {
                lemma_set_options_go_on(v, w, i + 2, SetArgs { ttl: Some(t), ..acc }, r);
            },
            Some(Err(e)) => {},
            None => {
                if spells(opt, "NX"@) {
                    lemma_set_options_go_on(
                        v,
                        w,
                        i + 1,
                        SetArgs { condition: SetCondition::Nx, ..acc },
                        r,
                    );
                } else if spells(opt, "XX"@) {
                    lemma_set_options_go_on(
                        v,
                        w,
                        i + 1,
                        SetArgs { condition: SetCondition::Xx, ..acc },
                        r,
                    );
                } else if spells(opt, "GET"@) {
                    lemma_set_options_go_on(v, w, i + 1, SetArgs { get: true, ..acc }, r);
                } else if spells(opt, "KEEPTTL"@) {
                    lemma_set_options_go_on(v, w, i + 1, acc, r);
                } else if spells(opt, "REV"@) {
                    let n = option_u64(v, i, "SET"@)->Ok_0;
                    lemma_set_options_go_on(
                        v,
                        w,
                        i + 2,
                        SetArgs { condition: SetCondition::Rev(n), ..acc },
                        r,
                    );
                }
            },
        }
    }
}

/// A `SET` without options writes always, sets no expiry and answers without the value before.
pub proof fn lemma_set_plain(v: Vec<Value>, key: Seq<u8>, value: Seq<u8>)
    requires
        v@.len() == 3,
        named(v@[0], "SET"@),
        says(v@[1], key),
        says(v@[2], value),
    ensures
        means(
            v,
            CommandView::SetKey {
                key,
                value,
                args: SetArgs { ttl: None, condition: SetCondition::Always, get: false },
            },
        ),
{
    lemma_names();
    lemma_named(v@, "SET"@);
}

/// One more word behind a `SET` changes what the word names and nothing else: `NX` and `XX` the
/// condition, `GET` whether the value before is answered, `KEEPTTL` nothing. An option that needs a
/// value is refused without one, and any other word is refused.
pub proof fn lemma_set_word(
    v: Vec<Value>,
    w: Vec<Value>,
    key: Seq<u8>,
    value: Seq<u8>,
    args: SetArgs,
    word: Seq<u8>,
)
    requires
        means(v, CommandView::SetKey { key, value, args }),
        w@.len() == v@.len() + 1,
        w@.take(v@.len() as int) == v@,
        says(w@.last(), word),
    ensures
        written(word, "NX"@) ==> means(
            w,
            CommandView::SetKey {
                key,
                value,
                args: SetArgs { ttl: args.ttl, condition: SetCondition::Nx, get: args.get },
            },
        ),
        written(word, "XX"@) ==> means(
            w,
            CommandView::SetKey {
                key,
                value,
                args: SetArgs { ttl: args.ttl, condition: SetCondition::Xx, get: args.get },
            },
        ),
        written(word, "GET"@) ==> means(
            w,
            CommandView::SetKey {
                key,
                value,
                args: SetArgs { ttl: args.ttl, condition: args.condition, get: true },
            },
        ),
        written(word, "KEEPTTL"@) ==> means(w, CommandView::SetKey { key, value, args }),
        written(word, "REV"@) || expiry_named(w@.last(), 0) is Some ==> refused_arity(w, "SET"@),
        expiry_named(w@.last(), 0) is None && !written(word, "NX"@) && !written(word, "XX"@)
            && !written(word, "GET"@) && !written(word, "KEEPTTL"@) && !written(word, "REV"@)
            ==> refused_option(w, word),
{
    let n = v@.len() as int;
    lemma_kind_tells_name(v, CommandView::SetKey { key, value, args });
    lemma_names();
    lemma_named(v@, "SET"@);
    assert(w@[0] == w@.take(n)[0]);
    lemma_named(w@, "SET"@);
    assert(w@[1] == w@.take(n)[1]);
    assert(w@[2] == w@.take(n)[2]);
    let none = SetArgs { ttl: None, condition: SetCondition::Always, get: false };
    lemma_set_options_go_on(v@, w@, 3, none, args);
    lemma_options();
    lemma_expiry_read(w@, n, "SET"@);
    lemma_one_word(word, "NX"@);
    lemma_one_word(word, "XX"@);
    lemma_one_word(word, "GET"@);
    lemma_one_word(word, "KEEPTTL"@);
    lemma_one_word(word, "REV"@);
    assert(arg(w@, n) == Ok::<Seq<u8>, ProtoErrorView>(word));
    lemma_expiry_words(w@.last(), word);
    reveal_with_fuel(set_options, 2);
}

/// A string that is such a word is no other.
proof fn lemma_one_word(name: Seq<u8>, word: Seq<char>)
    requires
        capital(word),
    ensures
        written(name, word) <==> spells(name, word),
        written(name, word) ==> forall|other: Seq<char>| #[trigger]
            spells(name, other) ==> other == word,
{
    lemma_written(name, word);
    assert forall|other: Seq<char>| #[trigger] spells(name, other) && spells(
        name,
        word,
    ) implies other == word by {
        encode_utf8_decode_utf8(word);
        encode_utf8_decode_utf8(other);
    }
}

/// Which words are expiry options.
proof fn lemma_expiry_words(v: Value, word: Seq<u8>)
    requires
        says(v, word),
    ensures
        expiry_named(v, 0) is Some <==> spells(word, "EX"@) || spells(word, "PX"@) || spells(
            word,
            "EXAT"@,
        ) || spells(word, "PXAT"@),
{
    lemma_options();
    lemma_written(word, "EX"@);
    lemma_written(word, "PX"@);
    lemma_written(word, "EXAT"@);
    lemma_written(word, "PXAT"@);
}

/// An option and its number behind a `SET` change what the option names and nothing else: the expiry,
/// or, for `REV`, the condition. A number that cannot be read is refused, and so is a lifetime of
/// nothing.
pub proof fn lemma_set_number(
    v: Vec<Value>,
    w: Vec<Value>,
    key: Seq<u8>,
    value: Seq<u8>,
    args: SetArgs,
    raw: Seq<u8>,
)
    requires
        means(v, CommandView::SetKey { key, value, args }),
        w@.len() == v@.len() + 2,
        w@.take(v@.len() as int) == v@,
        says(w@.last(), raw),
    ensures
        expiry_named(w@[v@.len() as int], 0) is Some ==> match decimal_u64(raw) {
            None => refused_number(w, raw),
            Some(n) => if n == 0 && (named(w@[v@.len() as int], "EX"@) || named(
                w@[v@.len() as int],
                "PX"@,
            )) {
                refused_expiry(w, raw)
            } else {
                means(
                    w,
                    CommandView::SetKey {
                        key,
                        value,
                        args: SetArgs {
                            ttl: expiry_named(w@[v@.len() as int], n),
                            condition: args.condition,
                            get: args.get,
                        },
                    },
                )
            },
        },
        named(w@[v@.len() as int], "REV"@) ==> match decimal_u64(raw) {
            None => refused_number(w, raw),
            Some(n) => means(
                w,
                CommandView::SetKey {
                    key,
                    value,
                    args: SetArgs {
                        ttl: args.ttl,
                        condition: SetCondition::Rev(n),
                        get: args.get,
                    },
                },
            ),
        },
{
    let n = v@.len() as int;
    lemma_kind_tells_name(v, CommandView::SetKey { key, value, args });
    lemma_names();
    lemma_named(v@, "SET"@);
    assert(w@[0] == w@.take(n)[0]);
    lemma_named(w@, "SET"@);
    assert(w@[1] == w@.take(n)[1]);
    assert(w@[2] == w@.take(n)[2]);
    let none = SetArgs { ttl: None, condition: SetCondition::Always, get: false };
    lemma_set_options_go_on(v@, w@, 3, none, args);
    lemma_options();
    lemma_expiry_read(w@, n, "SET"@);
    if named(w@[n], "REV"@) {
        lemma_named_at(w@, n, "REV"@);
    }
    if expiry_named(w@[n], 0) is Some {
        assert(arg(w@, n) is Ok) by {
            let name = choose|name: Seq<u8>| #[trigger] says(w@[n], name);
            assert(says(w@[n], name));
        }
    }
    assert(says(w@[n + 1], raw));
    assert(arg(w@, n + 1) == Ok::<Seq<u8>, ProtoErrorView>(raw));
    reveal_with_fuel(set_options, 2);
}

proof fn lemma_setrev_options_go_on(
    v: Seq<Value>,
    w: Seq<Value>,
    i: int,
    acc: Option<SetTtl>,
    r: Option<SetTtl>,
)
    requires
        0 <= i <= v.len() <= w.len(),
        w.take(v.len() as int) == v,
        setrev_options(v, i, acc) == Ok::<Option<SetTtl>, ProtoErrorView>(r),
    ensures
        setrev_options(w, i, acc) == setrev_options(w, v.len() as int, r),
    decreases v.len() - i,
{
    if i < v.len() {
        assert(w[i] == w.take(v.len() as int)[i]);
        if i + 1 < v.len() {
            assert(w[i + 1] == w.take(v.len() as int)[i + 1]);
        }
        let opt = arg(v, i)->Ok_0;
        assert(expiry_option(w, i, opt, "SETREV"@) == expiry_option(v, i, opt, "SETREV"@));
        if let Some(Ok(t)) = expiry_option(v, i, opt, "SETREV"@) {
            lemma_setrev_options_go_on(v, w, i + 2, Some(t), r);
        }
    }
}

/// A `SETREV` without options asks for the revision that its third argument says.
pub proof fn lemma_setrev_plain(v: Vec<Value>, key: Seq<u8>, value: Seq<u8>, raw: Seq<u8>)
    requires
        v@.len() == 4,
        named(v@[0], "SETREV"@),
        says(v@[1], key),
        says(v@[2], value),
        says(v@[3], raw),
    ensures
        match decimal_u64(raw) {
            Some(revision) => means(v, CommandView::SetRev { key, value, revision, ttl: None }),
            None => refused_number(v, raw),
        },
{
    lemma_names();
    lemma_named(v@, "SETREV"@);
}

/// More words behind a `SETREV` change the expiry and nothing else; what is no expiry option is
/// refused.
pub proof fn lemma_setrev_more(
    v: Vec<Value>,
    w: Vec<Value>,
    key: Seq<u8>,
    value: Seq<u8>,
    revision: u64,
    ttl: Option<SetTtl>,
    word: Seq<u8>,
    raw: Seq<u8>,
)
    requires
        means(v, CommandView::SetRev { key, value, revision, ttl }),
        w@.len() > v@.len(),
        w@.take(v@.len() as int) == v@,
        says(w@[v@.len() as int], word),
    ensures
        expiry_named(w@[v@.len() as int], 0) is None ==> refused_option(w, word),
        expiry_named(w@[v@.len() as int], 0) is Some && w@.len() == v@.len() + 1 ==> refused_arity(
            w,
            "SETREV"@,
        ),
        expiry_named(w@[v@.len() as int], 0) is Some && w@.len() == v@.len() + 2 && says(
            w@.last(),
            raw,
        ) ==> match decimal_u64(raw) {
            None => refused_number(w, raw),
            Some(n) => if n == 0 && (named(w@[v@.len() as int], "EX"@) || named(
                w@[v@.len() as int],
                "PX"@,
            )) {
                refused_expiry(w, raw)
            } else {
                means(
                    w,
                    CommandView::SetRev {
                        key,
                        value,
                        revision,
                        ttl: expiry_named(w@[v@.len() as int], n),
                    },
                )
            },
        },
{
    let n = v@.len() as int;
    lemma_kind_tells_name(v, CommandView::SetRev { key, value, revision, ttl });
    lemma_names();
    lemma_named(v@, "SETREV"@);
    assert(w@[0] == w@.take(n)[0]);
    lemma_named(w@, "SETREV"@);
    assert(w@[1] == w@.take(n)[1]);
    assert(w@[2] == w@.take(n)[2]);
    assert(w@[3] == w@.take(n)[3]);
    lemma_setrev_options_go_on(v@, w@, 4, None, ttl);
    lemma_expiry_read(w@, n, "SETREV"@);
    assert(arg(w@, n) == Ok::<Seq<u8>, ProtoErrorView>(word));
    if w@.len() == n + 2 && says(w@.last(), raw) {
        assert(says(w@[n + 1], raw));
    }
    reveal_with_fuel(setrev_options, 2);
}

proof fn lemma_getex_options_go_on(
    v: Seq<Value>,
    w: Seq<Value>,
    i: int,
    acc: Option<GetExTtl>,
    r: Option<GetExTtl>,
)
    requires
        0 <= i <= v.len() <= w.len(),
        w.take(v.len() as int) == v,
        getex_options(v, i, acc) == Ok::<Option<GetExTtl>, ProtoErrorView>(r),
    ensures
        getex_options(w, i, acc) == getex_options(w, v.len() as int, r),
    decreases v.len() - i,
{
    if i < v.len() {
        assert(w[i] == w.take(v.len() as int)[i]);
        if i + 1 < v.len() {
            assert(w[i + 1] == w.take(v.len() as int)[i + 1]);
        }
        let opt = arg(v, i)->Ok_0;
        assert(expiry_option(w, i, opt, "GETEX"@) == expiry_option(v, i, opt, "GETEX"@));
        match expiry_option(v, i, opt, "GETEX"@) {
            Some(Ok(t)) => {
                lemma_getex_options_go_on(v, w, i + 2, Some(GetExTtl::SetTo(t)), r);
            },
            Some(Err(e)) => {},
            None => {
                lemma_getex_options_go_on(v, w, i + 1, Some(GetExTtl::Persist), r);
            },
        }
    }
}

/// A `GETEX` without options leaves the expiry alone.
pub proof fn lemma_getex_plain(v: Vec<Value>, key: Seq<u8>)
    requires
        v@.len() == 2,
        named(v@[0], "GETEX"@),
        says(v@[1], key),
    ensures
        means(v, CommandView::GetEx { key, ttl: None }),
{
    lemma_names();
    lemma_named(v@, "GETEX"@);
}

/// More words behind a `GETEX` change the expiry and nothing else: `PERSIST` takes it away, an expiry
/// option sets it. What is neither is refused.
pub proof fn lemma_getex_more(
    v: Vec<Value>,
    w: Vec<Value>,
    key: Seq<u8>,
    ttl: Option<GetExTtl>,
    word: Seq<u8>,
    raw: Seq<u8>,
)
    requires
        means(v, CommandView::GetEx { key, ttl }),
        w@.len() > v@.len(),
        w@.take(v@.len() as int) == v@,
        says(w@[v@.len() as int], word),
    ensures
        expiry_named(w@[v@.len() as int], 0) is None && !written(word, "PERSIST"@)
            ==> refused_option(w, word),
        written(word, "PERSIST"@) && w@.len() == v@.len() + 1 ==> means(
            w,
            CommandView::GetEx { key, ttl: Some(GetExTtl::Persist) },
        ),
        expiry_named(w@[v@.len() as int], 0) is Some && w@.len() == v@.len() + 1 ==> refused_arity(
            w,
            "GETEX"@,
        ),
        expiry_named(w@[v@.len() as int], 0) is Some && w@.len() == v@.len() + 2 && says(
            w@.last(),
            raw,
        ) ==> match decimal_u64(raw) {
            None => refused_number(w, raw),
            Some(n) => if n == 0 && (named(w@[v@.len() as int], "EX"@) || named(
                w@[v@.len() as int],
                "PX"@,
            )) {
                refused_expiry(w, raw)
            } else {
                means(
                    w,
                    CommandView::GetEx {
                        key,
                        ttl: Some(GetExTtl::SetTo(expiry_named(w@[v@.len() as int], n)->0)),
                    },
                )
            },
        },
{
    let n = v@.len() as int;
    lemma_kind_tells_name(v, CommandView::GetEx { key, ttl });
    lemma_names();
    lemma_named(v@, "GETEX"@);
    assert(w@[0] == w@.take(n)[0]);
    lemma_named(w@, "GETEX"@);
    assert(w@[1] == w@.take(n)[1]);
    lemma_getex_options_go_on(v@, w@, 2, None, ttl);
    lemma_options();
    lemma_expiry_read(w@, n, "GETEX"@);
    lemma_expiry_words(w@[n], word);
    lemma_one_word(word, "PERSIST"@);
    assert(arg(w@, n) == Ok::<Seq<u8>, ProtoErrorView>(word));
    if w@.len() == n + 2 && says(w@.last(), raw) {
        assert(says(w@[n + 1], raw));
    }
    reveal_with_fuel(getex_options, 2);
}

proof fn lemma_scan_options_go_on(
    v: Seq<Value>,
    w: Seq<Value>,
    i: int,
    pattern: Option<Seq<u8>>,
    count: u64,
    r: (Option<Seq<u8>>, u64),
)
    requires
        0 <= i <= v.len() <= w.len(),
        w.take(v.len() as int) == v,
        scan_options(v, i, pattern, count) == Ok::<(Option<Seq<u8>>, u64), ProtoErrorView>(r),
    ensures
        scan_options(w, i, pattern, count) == scan_options(w, v.len() as int, r.0, r.1),
    decreases v.len() - i,
{
    if i < v.len() {
        assert(w[i] == w.take(v.len() as int)[i]);
        if i + 1 < v.len() {
            assert(w[i + 1] == w.take(v.len() as int)[i + 1]);
        }
        let opt = arg(v, i)->Ok_0;
        if spells(opt, "MATCH"@) {
            let p = option_text(v, i, "SCAN"@)->Ok_0;
            lemma_scan_options_go_on(v, w, i + 2, Some(p), count, r);
        } else if spells(opt, "COUNT"@) {
            let n = option_u64(v, i, "SCAN"@)->Ok_0;
            lemma_scan_options_go_on(v, w, i + 2, pattern, n, r);
        }
    }
}

/// A `SCAN` without options goes on from its cursor, over all keys, ten at a time.
pub proof fn lemma_scan_plain(v: Vec<Value>, cursor: Seq<u8>)
    requires
        v@.len() == 2,
        named(v@[0], "SCAN"@),
        says(v@[1], cursor),
    ensures
        means(v, CommandView::Scan { cursor, pattern: None, count: 10 }),
{
    lemma_names();
    lemma_named(v@, "SCAN"@);
}

/// More words behind a `SCAN` change what they name and nothing else: `MATCH` the pattern, `COUNT`
/// the number of keys at a time. What is neither is refused.
pub proof fn lemma_scan_more(
    v: Vec<Value>,
    w: Vec<Value>,
    cursor: Seq<u8>,
    pattern: Option<Seq<u8>>,
    count: u64,
    word: Seq<u8>,
    raw: Seq<u8>,
)
    requires
        means(v, CommandView::Scan { cursor, pattern, count }),
        w@.len() > v@.len(),
        w@.take(v@.len() as int) == v@,
        says(w@[v@.len() as int], word),
    ensures
        !written(word, "MATCH"@) && !written(word, "COUNT"@) ==> refused_option(w, word),
        (written(word, "MATCH"@) || written(word, "COUNT"@)) && w@.len() == v@.len() + 1
            ==> refused_arity(w, "SCAN"@),
        written(word, "MATCH"@) && w@.len() == v@.len() + 2 && says(w@.last(), raw) ==> means(
            w,
            CommandView::Scan { cursor, pattern: Some(raw), count },
        ),
        written(word, "COUNT"@) && w@.len() == v@.len() + 2 && says(w@.last(), raw)
            ==> match decimal_u64(raw) {
            None => refused_number(w, raw),
            Some(n) => means(w, CommandView::Scan { cursor, pattern, count: n }),
        },
{
    let n = v@.len() as int;
    lemma_kind_tells_name(v, CommandView::Scan { cursor, pattern, count });
    lemma_names();
    lemma_named(v@, "SCAN"@);
    assert(w@[0] == w@.take(n)[0]);
    lemma_named(w@, "SCAN"@);
    assert(w@[1] == w@.take(n)[1]);
    lemma_scan_options_go_on(v@, w@, 2, None, 10, (pattern, count));
    lemma_options();
    lemma_one_word(word, "MATCH"@);
    lemma_one_word(word, "COUNT"@);
    assert(arg(w@, n) == Ok::<Seq<u8>, ProtoErrorView>(word));
    if w@.len() == n + 2 && says(w@.last(), raw) {
        assert(says(w@[n + 1], raw));
    }
    reveal_with_fuel(scan_options, 2);
}

/// The commands on a key and a number, with the number in decimal.
pub proof fn lemma_number_texts(v: Vec<Value>, key: Seq<u8>, n: u64)
    requires
        v@.len() == 3,
        says(v@[1], key),
        says(v@[2], encode_utf8(decimal(n as nat))),
    ensures
        named(v@[0], "EXPIRE"@) ==> means(v, CommandView::Expire { key, secs: n }),
        named(v@[0], "PEXPIRE"@) ==> means(v, CommandView::PExpire { key, millis: n }),
        named(v@[0], "EXPIREAT"@) ==> means(v, CommandView::ExpireAt { key, unix_secs: n }),
        named(v@[0], "PEXPIREAT"@) ==> means(v, CommandView::PExpireAt { key, unix_millis: n }),
        named(v@[0], "INCRBY"@) && n <= i64::MAX ==> means(
            v,
            CommandView::IncrBy { key, delta: n as i64 },
        ),
        named(v@[0], "DECRBY"@) && n <= i64::MAX ==> means(
            v,
            CommandView::DecrBy { key, delta: n as i64 },
        ),
{
    lemma_text_reads_back(n as nat);
    lemma_number_requests(v, key, encode_utf8(decimal(n as nat)));
}

} // verus!
