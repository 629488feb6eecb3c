//! Commands and how they are read from a request.
use vstd::prelude::*;
use vstd::utf8::encode_utf8;

use crate::bytes;
use crate::decimal;
use crate::proto::error::{ProtoError, ProtoErrorView};
use crate::proto::value::{text, Value};

verus! {

/// When a `SET` is to write.
#[derive(Debug, Clone, Copy, PartialEq, Eq, Structural)]
pub enum SetCondition {
    Always,
    Nx,
    Xx,
    /// Compare-and-swap: only write if the current revision equals this value.
    Rev(u64),
}

/// The expiry that a write asks for.
#[derive(Debug, Clone, Copy, PartialEq, Eq, Structural)]
pub enum SetTtl {
    Seconds(u64),
    Millis(u64),
    UnixSecs(u64),
    UnixMillis(u64),
}

/// The options of a `SET`.
#[derive(Debug, Clone, Copy)]
pub struct SetArgs {
    pub ttl: Option<SetTtl>,
    pub condition: SetCondition,
    pub get: bool,
}

/// The options of a `SCAN`.
#[derive(Debug, Clone)]
pub struct ScanArgs {
    pub pattern: Option<Vec<u8>>,
    pub count: u64,
}

/// TTL modification for GETEX. Distinct from `Option<SetTtl>` so that
/// `Persist` (remove TTL) is not conflated with "no TTL option given".
#[derive(Debug, Clone, Copy, PartialEq, Eq, Structural)]
pub enum GetExTtl {
    SetTo(SetTtl),
    Persist,
}

/// A command.
#[derive(Debug, Clone)]
pub enum Command {
    Get { key: Vec<u8> },
    SetKey { key: Vec<u8>, value: Vec<u8>, args: SetArgs },
    Del { keys: Vec<Vec<u8>> },
    Exists { keys: Vec<Vec<u8>> },
    Expire { key: Vec<u8>, secs: u64 },
    PExpire { key: Vec<u8>, millis: u64 },
    ExpireAt { key: Vec<u8>, unix_secs: u64 },
    PExpireAt { key: Vec<u8>, unix_millis: u64 },
    Ttl { key: Vec<u8> },
    PTtl { key: Vec<u8> },
    Persist { key: Vec<u8> },
    Keys { pattern: Option<Vec<u8>> },
    Scan { cursor: Vec<u8>, args: ScanArgs },
    MGet { keys: Vec<Vec<u8>> },
    MSet { pairs: Vec<(Vec<u8>, Vec<u8>)> },
    GetSet { key: Vec<u8>, value: Vec<u8> },
    SetNx { key: Vec<u8>, value: Vec<u8> },
    GetDel { key: Vec<u8> },
    GetEx { key: Vec<u8>, ttl: Option<GetExTtl> },
    Incr { key: Vec<u8> },
    IncrBy { key: Vec<u8>, delta: i64 },
    Decr { key: Vec<u8> },
    DecrBy { key: Vec<u8>, delta: i64 },
    Hello { version: Option<u8> },
    Ping { message: Option<Vec<u8>> },
    Select { db: u64 },
    DbSize,
    FlushDb,
    BgRewriteAof,
    Quit,
    Reset,
    /// `WATCH key [key ...] [SINCE <revision>]`
    Watch { keys: Vec<Vec<u8>>, since: Option<u64> },
    /// `PWATCH prefix [SINCE <revision>]`
    PWatch { prefix: Vec<u8>, since: Option<u64> },
    Unwatch,
    /// `REVISION key`: the current revision (ms since epoch), or -2 if the key is missing.
    Revision { key: Vec<u8> },
    /// `SETREV key value revision [EX n | PX n | EXAT n | PXAT n]`
    ///
    /// Compare-and-swap write: atomically sets `key` to `value` only when the
    /// current revision equals `revision`. Returns the new revision on success,
    /// nil on mismatch or missing key.
    SetRev { key: Vec<u8>, value: Vec<u8>, revision: u64, ttl: Option<SetTtl> },
}

/// What a `Command` says.
#[verifier::ext_equal]
pub enum CommandView {
    Get { key: Seq<u8> },
    SetKey { key: Seq<u8>, value: Seq<u8>, args: SetArgs },
    Del { keys: Seq<Seq<u8>> },
    Exists { keys: Seq<Seq<u8>> },
    Expire { key: Seq<u8>, secs: u64 },
    PExpire { key: Seq<u8>, millis: u64 },
    ExpireAt { key: Seq<u8>, unix_secs: u64 },
    PExpireAt { key: Seq<u8>, unix_millis: u64 },
    Ttl { key: Seq<u8> },
    PTtl { key: Seq<u8> },
    Persist { key: Seq<u8> },
    Keys { pattern: Option<Seq<u8>> },
    Scan { cursor: Seq<u8>, pattern: Option<Seq<u8>>, count: u64 },
    MGet { keys: Seq<Seq<u8>> },
    MSet { pairs: Seq<(Seq<u8>, Seq<u8>)> },
    GetSet { key: Seq<u8>, value: Seq<u8> },
    SetNx { key: Seq<u8>, value: Seq<u8> },
    GetDel { key: Seq<u8> },
    GetEx { key: Seq<u8>, ttl: Option<GetExTtl> },
    Incr { key: Seq<u8> },
    IncrBy { key: Seq<u8>, delta: i64 },
    Decr { key: Seq<u8> },
    DecrBy { key: Seq<u8>, delta: i64 },
    Hello { version: Option<u8> },
    Ping { message: Option<Seq<u8>> },
    Select { db: u64 },
    DbSize,
    FlushDb,
    BgRewriteAof,
    Quit,
    Reset,
    Watch { keys: Seq<Seq<u8>>, since: Option<u64> },
    PWatch { prefix: Seq<u8>, since: Option<u64> },
    Unwatch,
    Revision { key: Seq<u8> },
    SetRev { key: Seq<u8>, value: Seq<u8>, revision: u64, ttl: Option<SetTtl> },
}

/// The bytes of an optional byte string.
pub open spec fn opt_view(o: Option<Vec<u8>>) -> Option<Seq<u8>> {
    match o {
        Some(b) => Some(b@),
        None => None,
    }
}

/// The bytes of each of several byte strings.
pub open spec fn views(v: Seq<Vec<u8>>) -> Seq<Seq<u8>> {
    v.map_values(|b: Vec<u8>| b@)
}

/// The bytes of each of several pairs of byte strings.
pub open spec fn pair_views(v: Seq<(Vec<u8>, Vec<u8>)>) -> Seq<(Seq<u8>, Seq<u8>)> {
    v.map_values(|p: (Vec<u8>, Vec<u8>)| (p.0@, p.1@))
}

impl View for Command {
    type V = CommandView;

    open spec fn view(&self) -> CommandView {
        match *self {
            Command::Get { key } => CommandView::Get { key: key@ },
            Command::SetKey { key, value, args } => CommandView::SetKey {
                key: key@,
                value: value@,
                args,
            },
            Command::Del { keys } => CommandView::Del { keys: views(keys@) },
            Command::Exists { keys } => CommandView::Exists { keys: views(keys@) },
            Command::Expire { key, secs } => CommandView::Expire { key: key@, secs },
            Command::PExpire { key, millis } => CommandView::PExpire { key: key@, millis },
            Command::ExpireAt { key, unix_secs } => CommandView::ExpireAt { key: key@, unix_secs },
            Command::PExpireAt { key, unix_millis } => CommandView::PExpireAt {
                key: key@,
                unix_millis,
            },
            Command::Ttl { key } => CommandView::Ttl { key: key@ },
            Command::PTtl { key } => CommandView::PTtl { key: key@ },
            Command::Persist { key } => CommandView::Persist { key: key@ },
            Command::Keys { pattern } => CommandView::Keys { pattern: opt_view(pattern) },
            Command::Scan { cursor, args } => CommandView::Scan {
                cursor: cursor@,
                pattern: opt_view(args.pattern),
                count: args.count,
            },
            Command::MGet { keys } => CommandView::MGet { keys: views(keys@) },
            Command::MSet { pairs } => CommandView::MSet { pairs: pair_views(pairs@) },
            Command::GetSet { key, value } => CommandView::GetSet { key: key@, value: value@ },
            Command::SetNx { key, value } => CommandView::SetNx { key: key@, value: value@ },
            Command::GetDel { key } => CommandView::GetDel { key: key@ },
            Command::GetEx { key, ttl } => CommandView::GetEx { key: key@, ttl },
            Command::Incr { key } => CommandView::Incr { key: key@ },
            Command::IncrBy { key, delta } => CommandView::IncrBy { key: key@, delta },
            Command::Decr { key } => CommandView::Decr { key: key@ },
            Command::DecrBy { key, delta } => CommandView::DecrBy { key: key@, delta },
            Command::Hello { version } => CommandView::Hello { version },
            Command::Ping { message } => CommandView::Ping { message: opt_view(message) },
            Command::Select { db } => CommandView::Select { db },
            Command::DbSize => CommandView::DbSize,
            Command::FlushDb => CommandView::FlushDb,
            Command::BgRewriteAof => CommandView::BgRewriteAof,
            Command::Quit => CommandView::Quit,
            Command::Reset => CommandView::Reset,
            Command::Watch { keys, since } => CommandView::Watch { keys: views(keys@), since },
            Command::PWatch { prefix, since } => CommandView::PWatch { prefix: prefix@, since },
            Command::Unwatch => CommandView::Unwatch,
            Command::Revision { key } => CommandView::Revision { key: key@ },
            Command::SetRev { key, value, revision, ttl } => CommandView::SetRev {
                key: key@,
                value: value@,
                revision,
                ttl,
            },
        }
    }
}

/// A reading step: a value, or the error that the whole request gets.
pub type Read<T> = Result<T, ProtoErrorView>;

/// One byte in upper case.
pub open spec fn upper_byte(b: u8) -> u8 {
    if 97 <= b <= 122 {
        (b - 32) as u8
    } else {
        b
    }
}

/// A byte string with its ASCII letters in upper case.
pub open spec fn upper(s: Seq<u8>) -> Seq<u8> {
    s.map_values(|b: u8| upper_byte(b))
}

/// `s` spells `word`, whatever the case of its letters.
pub open spec fn spells(s: Seq<u8>, word: Seq<char>) -> bool {
    upper(s) == encode_utf8(word)
}

pub open spec fn wrong_arity(cmd: Seq<char>) -> ProtoErrorView {
    ProtoErrorView::WrongArity { cmd }
}

/// The argument at `i`, which has to be a string.
pub open spec fn arg(args: Seq<Value>, i: int) -> Read<Seq<u8>> {
    match text(args[i]) {
        Some(b) => Ok(b),
        None => Err(ProtoErrorView::InvalidFormat { reason: "expected bulk string"@ }),
    }
}

/// The argument at `i`, which has to be an unsigned decimal.
pub open spec fn arg_u64(args: Seq<Value>, i: int) -> Read<u64> {
    match arg(args, i) {
        Ok(raw) => match decimal::decimal_u64(raw) {
            Some(n) => Ok(n),
            None => Err(ProtoErrorView::InvalidInteger { raw }),
        },
        Err(e) => Err(e),
    }
}

/// The argument at `i`, which has to be a signed decimal.
pub open spec fn arg_i64(args: Seq<Value>, i: int) -> Read<i64> {
    match arg(args, i) {
        Ok(raw) => match decimal::decimal_i64(raw) {
            Some(n) => Ok(n),
            None => Err(ProtoErrorView::InvalidInteger { raw }),
        },
        Err(e) => Err(e),
    }
}

/// The arguments from `i` up to `end`, all strings; else the error of the first that is not.
pub open spec fn args_between(args: Seq<Value>, i: int, end: int) -> Read<Seq<Seq<u8>>>
    decreases end - i,
{
    if i >= end {
        Ok(seq![])
    } else {
        match arg(args, i) {
            Ok(b) => match args_between(args, i + 1, end) {
                Ok(rest) => Ok(seq![b] + rest),
                Err(e) => Err(e),
            },
            Err(e) => Err(e),
        }
    }
}

/// The arguments from `i` on, two by two.
pub open spec fn pairs_from(args: Seq<Value>, i: int) -> Read<Seq<(Seq<u8>, Seq<u8>)>>
    decreases args.len() - i,
{
    if args.len() - i < 2 {
        Ok(seq![])
    } else {
        match arg(args, i) {
            Ok(k) => match arg(args, i + 1) {
                Ok(v) => match pairs_from(args, i + 2) {
                    Ok(rest) => Ok(seq![(k, v)] + rest),
                    Err(e) => Err(e),
                },
                Err(e) => Err(e),
            },
            Err(e) => Err(e),
        }
    }
}

/// `CMD key`.
pub open spec fn only_key(args: Seq<Value>, cmd: Seq<char>) -> Read<Seq<u8>> {
    if args.len() != 2 {
        Err(wrong_arity(cmd))
    } else {
        arg(args, 1)
    }
}

/// `CMD key number`, unsigned.
pub open spec fn key_u64(args: Seq<Value>, cmd: Seq<char>) -> Read<(Seq<u8>, u64)> {
    if args.len() != 3 {
        Err(wrong_arity(cmd))
    } else {
        match arg(args, 1) {
            Ok(k) => match arg_u64(args, 2) {
                Ok(n) => Ok((k, n)),
                Err(e) => Err(e),
            },
            Err(e) => Err(e),
        }
    }
}

/// `CMD key number`, signed.
pub open spec fn key_i64(args: Seq<Value>, cmd: Seq<char>) -> Read<(Seq<u8>, i64)> {
    if args.len() != 3 {
        Err(wrong_arity(cmd))
    } else {
        match arg(args, 1) {
            Ok(k) => match arg_i64(args, 2) {
                Ok(n) => Ok((k, n)),
                Err(e) => Err(e),
            },
            Err(e) => Err(e),
        }
    }
}

/// `CMD key value`.
pub open spec fn key_value(args: Seq<Value>, cmd: Seq<char>) -> Read<(Seq<u8>, Seq<u8>)> {
    if args.len() != 3 {
        Err(wrong_arity(cmd))
    } else {
        match arg(args, 1) {
            Ok(k) => match arg(args, 2) {
                Ok(v) => Ok((k, v)),
                Err(e) => Err(e),
            },
            Err(e) => Err(e),
        }
    }
}

/// `CMD key [key ...]`.
pub open spec fn some_keys(args: Seq<Value>, cmd: Seq<char>) -> Read<Seq<Seq<u8>>> {
    if args.len() < 2 {
        Err(wrong_arity(cmd))
    } else {
        args_between(args, 1, args.len() as int)
    }
}

/// `CMD [text]`.
pub open spec fn optional_text(args: Seq<Value>) -> Read<Option<Seq<u8>>> {
    if args.len() >= 2 {
        match arg(args, 1) {
            Ok(b) => Ok(Some(b)),
            Err(e) => Err(e),
        }
    } else {
        Ok(None)
    }
}

/// The value behind the option at `i`.
pub open spec fn option_text(args: Seq<Value>, i: int, cmd: Seq<char>) -> Read<Seq<u8>> {
    if args.len() - i < 2 {
        Err(wrong_arity(cmd))
    } else {
        arg(args, i + 1)
    }
}

/// The number behind the option at `i`.
pub open spec fn option_u64(args: Seq<Value>, i: int, cmd: Seq<char>) -> Read<u64> {
    if args.len() - i < 2 {
        Err(wrong_arity(cmd))
    } else {
        arg_u64(args, i + 1)
    }
}

/// The number behind the option at `i`, which must not be zero.
pub open spec fn option_expiry(args: Seq<Value>, i: int, cmd: Seq<char>) -> Read<u64> {
    match option_text(args, i, cmd) {
        Ok(raw) => match decimal::decimal_u64(raw) {
            Some(n) => if n == 0 {
                Err(ProtoErrorView::InvalidExpiry { raw })
            } else {
                Ok(n)
            },
            None => Err(ProtoErrorView::InvalidInteger { raw }),
        },
        Err(e) => Err(e),
    }
}

/// The expiry that the option at `i`, named `opt`, asks for; `None` where it is no expiry option.
pub open spec fn expiry_option(args: Seq<Value>, i: int, opt: Seq<u8>, cmd: Seq<char>) -> Option<
    Read<SetTtl>,
> {
    if spells(opt, "EX"@) {
        Some(
            match option_expiry(args, i, cmd) {
                Ok(n) => Ok(SetTtl::Seconds(n)),
                Err(e) => Err(e),
            },
        )
    } else if spells(opt, "PX"@) {
        Some(
            match option_expiry(args, i, cmd) {
                Ok(n) => Ok(SetTtl::Millis(n)),
                Err(e) => Err(e),
            },
        )
    } else if spells(opt, "EXAT"@) {
        Some(
            match option_u64(args, i, cmd) {
                Ok(n) => Ok(SetTtl::UnixSecs(n)),
                Err(e) => Err(e),
            },
        )
    } else if spells(opt, "PXAT"@) {
        Some(
            match option_u64(args, i, cmd) {
                Ok(n) => Ok(SetTtl::UnixMillis(n)),
                Err(e) => Err(e),
            },
        )
    } else {
        None
    }
}

/// The options of a `SET` from `i` on, given those before; the last of a kind counts.
pub open spec fn set_options(args: Seq<Value>, i: int, acc: SetArgs) -> Read<SetArgs>
    decreases args.len() - i,
{
    if i >= args.len() {
        Ok(acc)
    } else {
        match arg(args, i) {
            Err(e) => Err(e),
            Ok(opt) => match expiry_option(args, i, opt, "SET"@) {
                Some(Ok(t)) => set_options(args, i + 2, SetArgs { ttl: Some(t), ..acc }),
                Some(Err(e)) => Err(e),
                None => if spells(opt, "NX"@) {
                    set_options(args, i + 1, SetArgs { condition: SetCondition::Nx, ..acc })
                } else if spells(opt, "XX"@) {
                    set_options(args, i + 1, SetArgs { condition: SetCondition::Xx, ..acc })
                } else if spells(opt, "GET"@) {
                    set_options(args, i + 1, SetArgs { get: true, ..acc })
                } else if spells(opt, "KEEPTTL"@) {
                    set_options(args, i + 1, acc)
                } else if spells(opt, "REV"@) {
                    match option_u64(args, i, "SET"@) {
                        Ok(n) => set_options(
                            args,
                            i + 2,
                            SetArgs { condition: SetCondition::Rev(n), ..acc },
                        ),
                        Err(e) => Err(e),
                    }
                } else {
                    Err(ProtoErrorView::Syntax { token: opt })
                },
            },
        }
    }
}

/// `SET key value [options]`.
pub open spec fn set_command(args: Seq<Value>) -> Read<CommandView> {
    if args.len() < 3 {
        Err(wrong_arity("SET"@))
    } else {
        match arg(args, 1) {
            Err(e) => Err(e),
            Ok(key) => match arg(args, 2) {
                Err(e) => Err(e),
                Ok(value) => match set_options(
                    args,
                    3,
                    SetArgs { ttl: None, condition: SetCondition::Always, get: false },
                ) {
                    Ok(opts) => Ok(CommandView::SetKey { key, value, args: opts }),
                    Err(e) => Err(e),
                },
            },
        }
    }
}

/// The options of a `SETREV` from `i` on.
pub open spec fn setrev_options(args: Seq<Value>, i: int, acc: Option<SetTtl>) -> Read<
    Option<SetTtl>,
>
    decreases args.len() - i,
{
    if i >= args.len() {
        Ok(acc)
    } else {
        match arg(args, i) {
            Err(e) => Err(e),
            Ok(opt) => match expiry_option(args, i, opt, "SETREV"@) {
                Some(Ok(t)) => setrev_options(args, i + 2, Some(t)),
                Some(Err(e)) => Err(e),
                None => Err(ProtoErrorView::Syntax { token: opt }),
            },
        }
    }
}

/// `SETREV key value revision [options]`.
pub open spec fn setrev_command(args: Seq<Value>) -> Read<CommandView> {
    if args.len() < 4 {
        Err(wrong_arity("SETREV"@))
    } else {
        match arg(args, 1) {
            Err(e) => Err(e),
            Ok(key) => match arg(args, 2) {
                Err(e) => Err(e),
                Ok(value) => match arg_u64(args, 3) {
                    Err(e) => Err(e),
                    Ok(revision) => match setrev_options(args, 4, None) {
                        Ok(ttl) => Ok(CommandView::SetRev { key, value, revision, ttl }),
                        Err(e) => Err(e),
                    },
                },
            },
        }
    }
}

/// The options of a `GETEX` from `i` on.
pub open spec fn getex_options(args: Seq<Value>, i: int, acc: Option<GetExTtl>) -> Read<
    Option<GetExTtl>,
>
    decreases args.len() - i,
{
    if i >= args.len() {
        Ok(acc)
    } else {
        match arg(args, i) {
            Err(e) => Err(e),
            Ok(opt) => match expiry_option(args, i, opt, "GETEX"@) {
                Some(Ok(t)) => getex_options(args, i + 2, Some(GetExTtl::SetTo(t))),
                Some(Err(e)) => Err(e),
                None => if spells(opt, "PERSIST"@) {
                    getex_options(args, i + 1, Some(GetExTtl::Persist))
                } else {
                    Err(ProtoErrorView::Syntax { token: opt })
                },
            },
        }
    }
}

/// `GETEX key [options]`.
pub open spec fn getex_command(args: Seq<Value>) -> Read<CommandView> {
    if args.len() < 2 {
        Err(wrong_arity("GETEX"@))
    } else {
        match arg(args, 1) {
            Err(e) => Err(e),
            Ok(key) => match getex_options(args, 2, None) {
                Ok(ttl) => Ok(CommandView::GetEx { key, ttl }),
                Err(e) => Err(e),
            },
        }
    }
}

/// The options of a `SCAN` from `i` on: the pattern and the count.
pub open spec fn scan_options(
    args: Seq<Value>,
    i: int,
    pattern: Option<Seq<u8>>,
    count: u64,
) -> Read<(Option<Seq<u8>>, u64)>
    decreases args.len() - i,
{
    if i >= args.len() {
        Ok((pattern, count))
    } else {
        match arg(args, i) {
            Err(e) => Err(e),
            Ok(opt) => if spells(opt, "MATCH"@) {
                match option_text(args, i, "SCAN"@) {
                    Ok(p) => scan_options(args, i + 2, Some(p), count),
                    Err(e) => Err(e),
                }
            } else if spells(opt, "COUNT"@) {
                match option_u64(args, i, "SCAN"@) {
                    Ok(n) => scan_options(args, i + 2, pattern, n),
                    Err(e) => Err(e),
                }
            } else {
                Err(ProtoErrorView::Syntax { token: opt })
            },
        }
    }
}

/// `SCAN cursor [MATCH pattern] [COUNT n]`; the count is 10 where none is given.
pub open spec fn scan_command(args: Seq<Value>) -> Read<CommandView> {
    if args.len() < 2 {
        Err(wrong_arity("SCAN"@))
    } else {
        match arg(args, 1) {
            Err(e) => Err(e),
            Ok(cursor) => match scan_options(args, 2, None, 10) {
                Ok((pattern, count)) => Ok(CommandView::Scan { cursor, pattern, count }),
                Err(e) => Err(e),
            },
        }
    }
}

/// `HELLO [version]`; the version has to fit in a byte.
pub open spec fn hello_command(args: Seq<Value>) -> Read<CommandView> {
    if args.len() >= 2 {
        match arg(args, 1) {
            Err(e) => Err(e),
            Ok(raw) => match decimal::decimal_u64(raw) {
                Some(n) => if n <= u8::MAX {
                    Ok(CommandView::Hello { version: Some(n as u8) })
                } else {
                    Err(ProtoErrorView::InvalidInteger { raw })
                },
                None => Err(ProtoErrorView::InvalidInteger { raw }),
            },
        }
    } else {
        Ok(CommandView::Hello { version: None })
    }
}

/// `WATCH key [key ...] [SINCE revision]`: `SINCE` counts as the last argument but one, and a key
/// has to stand before it.
pub open spec fn watch_command(args: Seq<Value>) -> Read<CommandView> {
    let n = args.len() as int;
    if n < 2 {
        Err(wrong_arity("WATCH"@))
    } else if n >= 3 {
        match arg(args, n - 2) {
            Err(e) => Err(e),
            Ok(opt) => if spells(opt, "SINCE"@) && n == 3 {
                Err(wrong_arity("WATCH"@))
            } else if spells(opt, "SINCE"@) {
                match arg_u64(args, n - 1) {
                    Err(e) => Err(e),
                    Ok(rev) => match args_between(args, 1, n - 2) {
                        Ok(keys) => Ok(CommandView::Watch { keys, since: Some(rev) }),
                        Err(e) => Err(e),
                    },
                }
            } else {
                match args_between(args, 1, n) {
                    Ok(keys) => Ok(CommandView::Watch { keys, since: None }),
                    Err(e) => Err(e),
                }
            },
        }
    } else {
        match args_between(args, 1, n) {
            Ok(keys) => Ok(CommandView::Watch { keys, since: None }),
            Err(e) => Err(e),
        }
    }
}

/// `PWATCH prefix [SINCE revision]`; what else follows the prefix is passed over.
pub open spec fn pwatch_command(args: Seq<Value>) -> Read<CommandView> {
    if args.len() < 2 {
        Err(wrong_arity("PWATCH"@))
    } else {
        match arg(args, 1) {
            Err(e) => Err(e),
            Ok(prefix) => if args.len() >= 4 {
                match arg(args, 2) {
                    Err(e) => Err(e),
                    Ok(opt) => if spells(opt, "SINCE"@) {
                        match arg_u64(args, 3) {
                            Ok(rev) => Ok(CommandView::PWatch { prefix, since: Some(rev) }),
                            Err(e) => Err(e),
                        }
                    } else {
                        Ok(CommandView::PWatch { prefix, since: None })
                    },
                }
            } else {
                Ok(CommandView::PWatch { prefix, since: None })
            },
        }
    }
}

/// The command that a reading step's value makes.
pub open spec fn build<T>(r: Read<T>, make: spec_fn(T) -> CommandView) -> Read<CommandView> {
    match r {
        Ok(v) => Ok(make(v)),
        Err(e) => Err(e),
    }
}

/// The commands whose one argument is a key.
pub open spec fn key_commands(name: Seq<u8>, args: Seq<Value>) -> Option<Read<CommandView>> {
    if spells(name, "GET"@) {
        Some(build(only_key(args, "GET"@), |key: Seq<u8>| CommandView::Get { key }))
    } else if spells(name, "TTL"@) {
        Some(build(only_key(args, "TTL"@), |key: Seq<u8>| CommandView::Ttl { key }))
    } else if spells(name, "PTTL"@) {
        Some(build(only_key(args, "PTTL"@), |key: Seq<u8>| CommandView::PTtl { key }))
    } else if spells(name, "PERSIST"@) {
        Some(build(only_key(args, "PERSIST"@), |key: Seq<u8>| CommandView::Persist { key }))
    } else if spells(name, "GETDEL"@) {
        Some(build(only_key(args, "GETDEL"@), |key: Seq<u8>| CommandView::GetDel { key }))
    } else if spells(name, "INCR"@) {
        Some(build(only_key(args, "INCR"@), |key: Seq<u8>| CommandView::Incr { key }))
    } else if spells(name, "DECR"@) {
        Some(build(only_key(args, "DECR"@), |key: Seq<u8>| CommandView::Decr { key }))
    } else if spells(name, "REVISION"@) {
        Some(build(only_key(args, "REVISION"@), |key: Seq<u8>| CommandView::Revision { key }))
    } else {
        None
    }
}

/// The commands that take a key and a number.
pub open spec fn number_commands(name: Seq<u8>, args: Seq<Value>) -> Option<Read<CommandView>> {
    if spells(name, "EXPIRE"@) {
        Some(build(key_u64(args, "EXPIRE"@), |p: (Seq<u8>, u64)| CommandView::Expire { key: p.0, secs: p.1 }))
    } else if spells(name, "PEXPIRE"@) {
        Some(build(key_u64(args, "PEXPIRE"@), |p: (Seq<u8>, u64)| CommandView::PExpire { key: p.0, millis: p.1 }))
    } else if spells(name, "EXPIREAT"@) {
        Some(build(key_u64(args, "EXPIREAT"@), |p: (Seq<u8>, u64)| CommandView::ExpireAt { key: p.0, unix_secs: p.1 }))
    } else if spells(name, "PEXPIREAT"@) {
        Some(build(key_u64(args, "PEXPIREAT"@), |p: (Seq<u8>, u64)| CommandView::PExpireAt { key: p.0, unix_millis: p.1 }))
    } else if spells(name, "INCRBY"@) {
        Some(build(key_i64(args, "INCRBY"@), |p: (Seq<u8>, i64)| CommandView::IncrBy { key: p.0, delta: p.1 }))
    } else if spells(name, "DECRBY"@) {
        Some(build(key_i64(args, "DECRBY"@), |p: (Seq<u8>, i64)| CommandView::DecrBy { key: p.0, delta: p.1 }))
    } else {
        None
    }
}

/// The commands on a key and a value, on several keys, or on several pairs.
pub open spec fn bulk_commands(name: Seq<u8>, args: Seq<Value>) -> Option<Read<CommandView>> {
    if spells(name, "GETSET"@) {
        Some(build(key_value(args, "GETSET"@), |p: (Seq<u8>, Seq<u8>)| CommandView::GetSet { key: p.0, value: p.1 }))
    } else if spells(name, "SETNX"@) {
        Some(build(key_value(args, "SETNX"@), |p: (Seq<u8>, Seq<u8>)| CommandView::SetNx { key: p.0, value: p.1 }))
    } else if spells(name, "DEL"@) {
        Some(build(some_keys(args, "DEL"@), |keys: Seq<Seq<u8>>| CommandView::Del { keys }))
    } else if spells(name, "EXISTS"@) {
        Some(build(some_keys(args, "EXISTS"@), |keys: Seq<Seq<u8>>| CommandView::Exists { keys }))
    } else if spells(name, "MGET"@) {
        Some(build(some_keys(args, "MGET"@), |keys: Seq<Seq<u8>>| CommandView::MGet { keys }))
    } else if spells(name, "MSET"@) {
        Some(if args.len() < 3 || (args.len() - 1) % 2 != 0 {
            Err(wrong_arity("MSET"@))
        } else {
            build(pairs_from(args, 1), |pairs: Seq<(Seq<u8>, Seq<u8>)>| CommandView::MSet { pairs })
        })
    } else {
        None
    }
}

/// The commands that have options.
pub open spec fn option_commands(name: Seq<u8>, args: Seq<Value>) -> Option<Read<CommandView>> {
    if spells(name, "SET"@) {
        Some(set_command(args))
    } else if spells(name, "GETEX"@) {
        Some(getex_command(args))
    } else if spells(name, "SETREV"@) {
        Some(setrev_command(args))
    } else if spells(name, "SCAN"@) {
        Some(scan_command(args))
    } else if spells(name, "HELLO"@) {
        Some(hello_command(args))
    } else if spells(name, "WATCH"@) {
        Some(watch_command(args))
    } else if spells(name, "PWATCH"@) {
        Some(pwatch_command(args))
    } else {
        None
    }
}

/// The commands on the connection or on the whole database.
pub open spec fn server_commands(name: Seq<u8>, args: Seq<Value>) -> Option<Read<CommandView>> {
    if spells(name, "DBSIZE"@) {
        Some(Ok(CommandView::DbSize))
    } else if spells(name, "BGREWRITEAOF"@) {
        Some(Ok(CommandView::BgRewriteAof))
    } else if spells(name, "QUIT"@) {
        Some(Ok(CommandView::Quit))
    } else if spells(name, "RESET"@) {
        Some(Ok(CommandView::Reset))
    } else if spells(name, "UNWATCH"@) {
        Some(Ok(CommandView::Unwatch))
    } else if spells(name, "FLUSHDB"@) {
        Some(if args.len() != 1 {
            Err(wrong_arity("FLUSHDB"@))
        } else {
            Ok(CommandView::FlushDb)
        })
    } else if spells(name, "SELECT"@) {
        Some(if args.len() != 2 {
            Err(wrong_arity("SELECT"@))
        } else {
            build(arg_u64(args, 1), |db: u64| CommandView::Select { db })
        })
    } else if spells(name, "KEYS"@) {
        Some(build(optional_text(args), |pattern: Option<Seq<u8>>| CommandView::Keys { pattern }))
    } else if spells(name, "PING"@) {
        Some(build(optional_text(args), |message: Option<Seq<u8>>| CommandView::Ping { message }))
    } else if spells(name, "COMMAND"@) {
        Some(Ok(CommandView::Ping { message: None }))
    } else {
        None
    }
}

/// The command that a request stands for, or the error that it is refused with.
pub open spec fn command_of(request: Value) -> Read<CommandView> {
    match request {
        Value::Array(v) => if v@.len() == 0 {
            Err(ProtoErrorView::InvalidFormat { reason: "expected non-empty array"@ })
        } else {
            match arg(v@, 0) {
                Err(e) => Err(e),
                Ok(name) => match key_commands(name, v@) {
                    Some(r) => r,
                    None => match number_commands(name, v@) {
                        Some(r) => r,
                        None => match bulk_commands(name, v@) {
                            Some(r) => r,
                            None => match option_commands(name, v@) {
                                Some(r) => r,
                                None => match server_commands(name, v@) {
                                    Some(r) => r,
                                    None => Err(ProtoErrorView::UnknownCommand { cmd: name }),
                                },
                            },
                        },
                    },
                },
            }
        },
        _ => Err(ProtoErrorView::InvalidFormat { reason: "expected non-empty array"@ }),
    }
}

/// The requests have the same arguments behind the name.
pub open spec fn same_arguments(a: Seq<Value>, b: Seq<Value>) -> bool {
    a.len() == b.len() && forall|i: int| 1 <= i < a.len() ==> #[trigger] arg(a, i) == arg(b, i)
}

/// A name that stands for a command.
pub open spec fn is_command(name: Seq<u8>) -> bool {
    ||| key_commands(name, seq![]) is Some
    ||| number_commands(name, seq![]) is Some
    ||| bulk_commands(name, seq![]) is Some
    ||| option_commands(name, seq![]) is Some
    ||| server_commands(name, seq![]) is Some
}

/// Names of commands are read whatever the case of their letters: two requests that differ only in
/// the case of the name stand for the same command, or are refused with the same error. A name that
/// stands for no command is given back as it was written.
pub proof fn lemma_names_ignore_case(a: Vec<Value>, b: Vec<Value>, n: Seq<u8>, m: Seq<u8>)
    requires
        a@.len() > 0,
        text(a@[0]) == Some(n),
        text(b@[0]) == Some(m),
        upper(n) == upper(m),
        same_arguments(a@, b@),
    ensures
        is_command(n) == is_command(m),
        is_command(n) ==> command_of(Value::Array(a)) == command_of(Value::Array(b)),
        !is_command(n) ==> command_of(Value::Array(a)) == Err::<CommandView, ProtoErrorView>(
            ProtoErrorView::UnknownCommand { cmd: n },
        ),
{
    let x = a@;
    let y = b@;
    if x.len() > 1 {
        assert(arg(x, 1) == arg(y, 1));
        lemma_same_args_between(x, y, 1, x.len() as int);
        lemma_same_pairs_from(x, y, 1);
        lemma_same_getex_options(x, y, 2, None);
        lemma_same_scan_options(x, y, 2, None, 10);
    }
    if x.len() > 2 {
        assert(arg(x, 2) == arg(y, 2));
        assert(arg(x, x.len() - 2) == arg(y, y.len() - 2));
        assert(arg(x, x.len() - 1) == arg(y, y.len() - 1));
        lemma_same_args_between(x, y, 1, x.len() - 2);
    }
    if x.len() > 3 {
        assert(arg(x, 3) == arg(y, 3));
    }
    assert(set_command(x) == set_command(y)) by {
        assert forall|acc: SetArgs| #[trigger] set_options(x, 3, acc) == set_options(y, 3, acc) by {
            lemma_same_set_options(x, y, 3, acc);
        }
    }
    assert(setrev_command(x) == setrev_command(y)) by {
        assert forall|j: int, acc: Option<SetTtl>| 1 <= j implies #[trigger] setrev_options(
            x,
            j,
            acc,
        ) == setrev_options(y, j, acc) by {
            lemma_same_setrev_options(x, y, j, acc);
        }
    }
    assert(key_commands(n, x) == key_commands(m, y));
    assert(number_commands(n, x) == number_commands(m, y));
    assert(bulk_commands(n, x) == bulk_commands(m, y));
    assert(option_commands(n, x) == option_commands(m, y));
    assert(server_commands(n, x) == server_commands(m, y));
}

proof fn lemma_same_args_between(a: Seq<Value>, b: Seq<Value>, i: int, end: int)
    requires
        same_arguments(a, b),
        1 <= i,
        end <= a.len(),
    ensures
        args_between(a, i, end) == args_between(b, i, end),
    decreases end - i,
{
    if i < end {
        assert(arg(a, i) == arg(b, i));
        lemma_same_args_between(a, b, i + 1, end);
    }
}

proof fn lemma_same_pairs_from(a: Seq<Value>, b: Seq<Value>, i: int)
    requires
        same_arguments(a, b),
        1 <= i,
    ensures
        pairs_from(a, i) == pairs_from(b, i),
    decreases a.len() - i,
{
    if i + 1 < a.len() {
        assert(arg(a, i) == arg(b, i));
        assert(arg(a, i + 1) == arg(b, i + 1));
        lemma_same_pairs_from(a, b, i + 2);
    }
}

proof fn lemma_same_set_options(a: Seq<Value>, b: Seq<Value>, i: int, acc: SetArgs)
    requires
        same_arguments(a, b),
        1 <= i,
    ensures
        set_options(a, i, acc) == set_options(b, i, acc),
    decreases (if i < a.len() { a.len() - i } else { 0 }),
{
    if i < a.len() {
        assert(arg(a, i) == arg(b, i));
        if i + 1 < a.len() {
            assert(arg(a, i + 1) == arg(b, i + 1));
        }
        if let Ok(opt) = arg(a, i) {
            assert(expiry_option(a, i, opt, "SET"@) == expiry_option(b, i, opt, "SET"@));
            if let Some(Ok(t)) = expiry_option(a, i, opt, "SET"@) {
                lemma_same_set_options(a, b, i + 2, SetArgs { ttl: Some(t), ..acc });
            }
            lemma_same_set_options(a, b, i + 1, SetArgs { condition: SetCondition::Nx, ..acc });
            lemma_same_set_options(a, b, i + 1, SetArgs { condition: SetCondition::Xx, ..acc });
            lemma_same_set_options(a, b, i + 1, SetArgs { get: true, ..acc });
            lemma_same_set_options(a, b, i + 1, acc);
            if let Ok(n) = option_u64(a, i, "SET"@) {
                lemma_same_set_options(
                    a,
                    b,
                    i + 2,
                    SetArgs { condition: SetCondition::Rev(n), ..acc },
                );
            }
        }
    }
}

proof fn lemma_same_setrev_options(a: Seq<Value>, b: Seq<Value>, i: int, acc: Option<SetTtl>)
    requires
        same_arguments(a, b),
        1 <= i,
    ensures
        setrev_options(a, i, acc) == setrev_options(b, i, acc),
    decreases (if i < a.len() { a.len() - i } else { 0 }),
{
    if i < a.len() {
        assert(arg(a, i) == arg(b, i));
        if i + 1 < a.len() {
            assert(arg(a, i + 1) == arg(b, i + 1));
        }
        if let Ok(opt) = arg(a, i) {
            assert(expiry_option(a, i, opt, "SETREV"@) == expiry_option(b, i, opt, "SETREV"@));
            if let Some(Ok(t)) = expiry_option(a, i, opt, "SETREV"@) {
                lemma_same_setrev_options(a, b, i + 2, Some(t));
            }
        }
    }
}

proof fn lemma_same_getex_options(a: Seq<Value>, b: Seq<Value>, i: int, acc: Option<GetExTtl>)
    requires
        same_arguments(a, b),
        1 <= i,
    ensures
        getex_options(a, i, acc) == getex_options(b, i, acc),
    decreases (if i < a.len() { a.len() - i } else { 0 }),
{
    if i < a.len() {
        assert(arg(a, i) == arg(b, i));
        if i + 1 < a.len() {
            assert(arg(a, i + 1) == arg(b, i + 1));
        }
        if let Ok(opt) = arg(a, i) {
            assert(expiry_option(a, i, opt, "GETEX"@) == expiry_option(b, i, opt, "GETEX"@));
            if let Some(Ok(t)) = expiry_option(a, i, opt, "GETEX"@) {
                lemma_same_getex_options(a, b, i + 2, Some(GetExTtl::SetTo(t)));
            }
            lemma_same_getex_options(a, b, i + 1, Some(GetExTtl::Persist));
        }
    }
}

proof fn lemma_same_scan_options(a: Seq<Value>, b: Seq<Value>, i: int, pattern: Option<Seq<u8>>, count: u64)
    requires
        same_arguments(a, b),
        1 <= i,
    ensures
        scan_options(a, i, pattern, count) == scan_options(b, i, pattern, count),
    decreases (if i < a.len() { a.len() - i } else { 0 }),
{
    if i < a.len() {
        assert(arg(a, i) == arg(b, i));
        if i + 1 < a.len() {
            assert(arg(a, i + 1) == arg(b, i + 1));
        }
        if let Ok(opt) = arg(a, i) {
            if let Ok(p) = option_text(a, i, "SCAN"@) {
                lemma_same_scan_options(a, b, i + 2, Some(p), count);
            }
            if let Ok(n) = option_u64(a, i, "SCAN"@) {
                lemma_same_scan_options(a, b, i + 2, pattern, n);
            }
        }
    }
}

proof fn lemma_args_between_len(args: Seq<Value>, i: int, end: int)
    requires
        i <= end,
    ensures
        args_between(args, i, end) matches Ok(keys) ==> keys.len() == end - i,
    decreases end - i,
{
    if i < end {
        lemma_args_between_len(args, i + 1, end);
    }
}

/// A watch names at least one key.
pub proof fn lemma_watch_has_a_key(request: Value)
    ensures
        command_of(request) matches Ok(CommandView::Watch { keys, .. }) ==> keys.len() >= 1,
{
    if let Value::Array(v) = request {
        let n = v@.len() as int;
        if n >= 2 {
            lemma_args_between_len(v@, 1, n);
        }
        if n >= 3 {
            lemma_args_between_len(v@, 1, n - 2);
        }
    }
}

/// An expiry option means the same to `GETEX` as to `SET`: both give the same expiry, or both fail
/// with the same error.
pub proof fn lemma_expiry_options_agree(
    set: Seq<Value>,
    getex: Seq<Value>,
    key: Seq<u8>,
    value: Seq<u8>,
    opt: Seq<u8>,
    n: Seq<u8>,
)
    requires
        set.len() == 5,
        getex.len() == 4,
        text(set[1]) == Some(key),
        text(set[2]) == Some(value),
        text(set[3]) == Some(opt),
        text(set[4]) == Some(n),
        text(getex[1]) == Some(key),
        text(getex[2]) == Some(opt),
        text(getex[3]) == Some(n),
        spells(opt, "EX"@) || spells(opt, "PX"@) || spells(opt, "EXAT"@) || spells(opt, "PXAT"@),
    ensures
        match getex_command(getex) {
            Ok(CommandView::GetEx { key: k, ttl: Some(GetExTtl::SetTo(t)) }) => k == key
                && set_command(set) == Ok::<CommandView, ProtoErrorView>(with_ttl(key, value, t)),
            Ok(_) => false,
            Err(e) => set_command(set) == Err::<CommandView, ProtoErrorView>(e) && (e
                == ProtoErrorView::InvalidInteger { raw: n } || e
                == ProtoErrorView::InvalidExpiry { raw: n }),
        },
{
    reveal_with_fuel(set_options, 2);
    reveal_with_fuel(getex_options, 2);
    assert(expiry_option(set, 3, opt, "SET"@) == expiry_option(getex, 2, opt, "GETEX"@));
}

/// A `SET` of this key and value with this expiry and no other option.
pub open spec fn with_ttl(key: Seq<u8>, value: Seq<u8>, t: SetTtl) -> CommandView {
    CommandView::SetKey {
        key,
        value,
        args: SetArgs { ttl: Some(t), condition: SetCondition::Always, get: false },
    }
}

/// What was read is what the grammar gives.
pub open spec fn reads(r: Result<Command, ProtoError>, s: Read<CommandView>) -> bool {
    match r {
        Ok(c) => s == Ok::<CommandView, ProtoErrorView>(c@),
        Err(e) => s == Err::<CommandView, ProtoErrorView>(e@),
    }
}

/// What was read of a group of commands is what the grammar gives.
pub open spec fn reads_group(
    r: Option<Result<Command, ProtoError>>,
    s: Option<Read<CommandView>>,
) -> bool {
    match r {
        Some(r) => s is Some && reads(r, s->0),
        None => s is None,
    }
}

/// An owned copy of a byte string in upper case.
fn to_upper(s: &[u8]) -> (r: Vec<u8>)
    ensures
        r@ == upper(s@),
{
    let mut out: Vec<u8> = Vec::new();
    let mut i: usize = 0;
    while i < s.len()
        invariant
            i <= s@.len(),
            out@.len() == i,
            forall|j: int| 0 <= j < i ==> out@[j] == upper_byte(s@[j]),
        decreases s@.len() - i,
    {
        let b = s[i];
        if b >= 97 && b <= 122 {
            out.push(b - 32);
        } else {
            out.push(b);
        }
        i = i + 1;
    }
    assert(out@ =~= upper(s@));
    out
}

/// Whether an upper-case byte string is `word`.
fn is_word(up: &Vec<u8>, word: &str) -> (r: bool)
    ensures
        r == (up@ == encode_utf8(word@)),
{
    bytes::same(up.as_slice(), word.as_bytes())
}

fn bulk(v: &Value) -> (r: Result<Vec<u8>, ProtoError>)
    ensures
        match r {
            Ok(b) => text(*v) == Some(b@),
            Err(e) => text(*v) is None && e@ == (ProtoErrorView::InvalidFormat {
                reason: "expected bulk string"@,
            }),
        },
{
    match v {
        Value::BulkString(b) => Ok(bytes::to_owned(b.as_slice())),
        Value::SimpleString(b) => Ok(bytes::to_owned(b.as_slice())),
        _ => Err(ProtoError::InvalidFormat { reason: "expected bulk string" }),
    }
}

fn bulk_at(args: &Vec<Value>, i: usize) -> (r: Result<Vec<u8>, ProtoError>)
    requires
        i < args@.len(),
    ensures
        match r {
            Ok(b) => arg(args@, i as int) == Ok::<Seq<u8>, ProtoErrorView>(b@),
            Err(e) => arg(args@, i as int) == Err::<Seq<u8>, ProtoErrorView>(e@),
        },
{
    bulk(&args[i])
}

fn parse_u64(args: &Vec<Value>, i: usize) -> (r: Result<u64, ProtoError>)
    requires
        i < args@.len(),
    ensures
        match r {
            Ok(n) => arg_u64(args@, i as int) == Ok::<u64, ProtoErrorView>(n),
            Err(e) => arg_u64(args@, i as int) == Err::<u64, ProtoErrorView>(e@),
        },
{
    match bulk_at(args, i) {
        Ok(raw) => match decimal::read_u64(raw.as_slice()) {
            Some(n) => Ok(n),
            None => Err(ProtoError::InvalidInteger { raw }),
        },
        Err(e) => Err(e),
    }
}

fn parse_i64(args: &Vec<Value>, i: usize) -> (r: Result<i64, ProtoError>)
    requires
        i < args@.len(),
    ensures
        match r {
            Ok(n) => arg_i64(args@, i as int) == Ok::<i64, ProtoErrorView>(n),
            Err(e) => arg_i64(args@, i as int) == Err::<i64, ProtoErrorView>(e@),
        },
{
    match bulk_at(args, i) {
        Ok(raw) => match decimal::read_i64(raw.as_slice()) {
            Some(n) => Ok(n),
            None => Err(ProtoError::InvalidInteger { raw }),
        },
        Err(e) => Err(e),
    }
}

proof fn lemma_args_between_push(args: Seq<Value>, from: int, i: int, end: int, got: Seq<Seq<u8>>)
    requires
        from <= i < end,
        args_between(args, from, i) == Ok::<Seq<Seq<u8>>, ProtoErrorView>(got),
    ensures
        match arg(args, i) {
            Ok(b) => args_between(args, from, i + 1) == Ok::<Seq<Seq<u8>>, ProtoErrorView>(
                got.push(b),
            ),
            Err(e) => args_between(args, from, end) == Err::<Seq<Seq<u8>>, ProtoErrorView>(e),
        },
    decreases i - from,
{
    reveal_with_fuel(args_between, 2);
    if from < i {
        let first = arg(args, from)->Ok_0;
        let rest = args_between(args, from + 1, i)->Ok_0;
        lemma_args_between_push(args, from + 1, i, end, rest);
        assert(got =~= seq![first] + rest);
        if let Ok(b) = arg(args, i) {
            assert(got.push(b) =~= seq![first] + rest.push(b));
        }
    } else {
        assert(got =~= seq![]);
        if let Ok(b) = arg(args, i) {
            assert(got.push(b) =~= seq![b] + Seq::<Seq<u8>>::empty());
        }
    }
}

/// Reads the arguments from `from` up to `end`.
fn bulks_between(args: &Vec<Value>, from: usize, end: usize) -> (r: Result<
    Vec<Vec<u8>>,
    ProtoError,
>)
    requires
        from <= end <= args@.len(),
    ensures
        match r {
            Ok(v) => args_between(args@, from as int, end as int) == Ok::<
                Seq<Seq<u8>>,
                ProtoErrorView,
            >(views(v@)),
            Err(e) => args_between(args@, from as int, end as int) == Err::<
                Seq<Seq<u8>>,
                ProtoErrorView,
            >(e@),
        },
{
    let mut out: Vec<Vec<u8>> = Vec::new();
    let mut i: usize = from;
    assert(views(out@) =~= seq![]);
    while i < end
        invariant
            from <= i <= end <= args@.len(),
            args_between(args@, from as int, i as int) == Ok::<Seq<Seq<u8>>, ProtoErrorView>(
                views(out@),
            ),
        decreases end - i,
    {
        proof {
            lemma_args_between_push(args@, from as int, i as int, end as int, views(out@));
        }
        match bulk_at(args, i) {
            Ok(b) => {
                let ghost before = out@;
                out.push(b);
                assert(views(out@) =~= views(before).push(b@));
            },
            Err(e) => {
                return Err(e);
            },
        }
        i = i + 1;
    }
    Ok(out)
}

/// The pairs from `from` up to `i`, which stands a whole number of pairs behind it.
spec fn pairs_upto(args: Seq<Value>, from: int, i: int) -> Read<Seq<(Seq<u8>, Seq<u8>)>> {
    pairs_from(args.take(i), from)
}

proof fn lemma_pairs_push(args: Seq<Value>, from: int, i: int, got: Seq<(Seq<u8>, Seq<u8>)>)
    requires
        0 <= from <= i,
        i + 2 <= args.len(),
        (i - from) % 2 == 0,
        pairs_upto(args, from, i) == Ok::<Seq<(Seq<u8>, Seq<u8>)>, ProtoErrorView>(got),
    ensures
        match arg(args, i) {
            Err(e) => pairs_from(args, from) == Err::<Seq<(Seq<u8>, Seq<u8>)>, ProtoErrorView>(e),
            Ok(k) => match arg(args, i + 1) {
                Err(e) => pairs_from(args, from) == Err::<
                    Seq<(Seq<u8>, Seq<u8>)>,
                    ProtoErrorView,
                >(e),
                Ok(v) => pairs_upto(args, from, i + 2) == Ok::<
                    Seq<(Seq<u8>, Seq<u8>)>,
                    ProtoErrorView,
                >(got.push((k, v))),
            },
        },
    decreases i - from,
{
    reveal_with_fuel(pairs_from, 2);
    let short = args.take(i);
    let long = args.take(i + 2);
    if from < i {
        assert(from + 1 < i);
        assert(short[from] == args[from] && short[from + 1] == args[from + 1]);
        assert(long[from] == args[from] && long[from + 1] == args[from + 1]);
        let k0 = arg(args, from)->Ok_0;
        let v0 = arg(args, from + 1)->Ok_0;
        let rest = pairs_from(short, from + 2)->Ok_0;
        lemma_pairs_push(args, from + 2, i, rest);
        assert(got =~= seq![(k0, v0)] + rest);
        if let Ok(k) = arg(args, i) {
            if let Ok(v) = arg(args, i + 1) {
                assert(got.push((k, v)) =~= seq![(k0, v0)] + rest.push((k, v)));
            }
        }
    } else {
        assert(got =~= seq![]);
        assert(long[i] == args[i] && long[i + 1] == args[i + 1]);
        if let Ok(k) = arg(args, i) {
            if let Ok(v) = arg(args, i + 1) {
                assert(pairs_from(long, i + 2) == Ok::<Seq<(Seq<u8>, Seq<u8>)>, ProtoErrorView>(
                    seq![],
                ));
                assert(got.push((k, v)) =~= seq![(k, v)] + Seq::<(Seq<u8>, Seq<u8>)>::empty());
            }
        }
    }
}

/// Reads the arguments from the second on, two by two.
fn bulk_pairs(args: &Vec<Value>) -> (r: Result<Vec<(Vec<u8>, Vec<u8>)>, ProtoError>)
    requires
        args@.len() >= 1,
        (args@.len() - 1) % 2 == 0,
    ensures
        match r {
            Ok(v) => pairs_from(args@, 1) == Ok::<Seq<(Seq<u8>, Seq<u8>)>, ProtoErrorView>(
                pair_views(v@),
            ),
            Err(e) => pairs_from(args@, 1) == Err::<Seq<(Seq<u8>, Seq<u8>)>, ProtoErrorView>(e@),
        },
{
    let mut out: Vec<(Vec<u8>, Vec<u8>)> = Vec::new();
    let mut i: usize = 1;
    assert(pair_views(out@) =~= seq![]);
    while i < args.len()
        invariant
            1 <= i <= args@.len(),
            (args@.len() - 1) % 2 == 0,
            (i - 1) % 2 == 0,
            pairs_upto(args@, 1, i as int) == Ok::<Seq<(Seq<u8>, Seq<u8>)>, ProtoErrorView>(
                pair_views(out@),
            ),
        decreases args@.len() - i,
    {
        proof {
            lemma_pairs_push(args@, 1, i as int, pair_views(out@));
        }
        let k = match bulk_at(args, i) {
            Ok(b) => b,
            Err(e) => {
                return Err(e);
            },
        };
        let v = match bulk_at(args, i + 1) {
            Ok(b) => b,
            Err(e) => {
                return Err(e);
            },
        };
        let ghost before = out@;
        out.push((k, v));
        assert(pair_views(out@) =~= pair_views(before).push((k@, v@)));
        i = i + 2;
    }
    assert(args@.take(i as int) =~= args@);
    Ok(out)
}

/// Reads the string behind the option at `i`.
fn text_after(args: &Vec<Value>, i: usize, cmd: &'static str) -> (r: Result<Vec<u8>, ProtoError>)
    requires
        i < args@.len(),
    ensures
        match r {
            Ok(b) => option_text(args@, i as int, cmd@) == Ok::<Seq<u8>, ProtoErrorView>(b@),
            Err(e) => option_text(args@, i as int, cmd@) == Err::<Seq<u8>, ProtoErrorView>(e@),
        },
{
    if args.len() - i < 2 {
        Err(ProtoError::WrongArity { cmd })
    } else {
        bulk_at(args, i + 1)
    }
}

/// Reads the number behind the option at `i`.
fn u64_after(args: &Vec<Value>, i: usize, cmd: &'static str) -> (r: Result<u64, ProtoError>)
    requires
        i < args@.len(),
    ensures
        match r {
            Ok(n) => option_u64(args@, i as int, cmd@) == Ok::<u64, ProtoErrorView>(n),
            Err(e) => option_u64(args@, i as int, cmd@) == Err::<u64, ProtoErrorView>(e@),
        },
{
    if args.len() - i < 2 {
        Err(ProtoError::WrongArity { cmd })
    } else {
        parse_u64(args, i + 1)
    }
}

/// Reads the non-zero number behind the option at `i`.
fn expiry_after(args: &Vec<Value>, i: usize, cmd: &'static str) -> (r: Result<u64, ProtoError>)
    requires
        i < args@.len(),
    ensures
        match r {
            Ok(n) => option_expiry(args@, i as int, cmd@) == Ok::<u64, ProtoErrorView>(n),
            Err(e) => option_expiry(args@, i as int, cmd@) == Err::<u64, ProtoErrorView>(e@),
        },
{
    match text_after(args, i, cmd) {
        Ok(raw) => match decimal::read_u64(raw.as_slice()) {
            Some(n) => if n == 0 {
                Err(ProtoError::InvalidExpiry { raw })
            } else {
                Ok(n)
            },
            None => Err(ProtoError::InvalidInteger { raw }),
        },
        Err(e) => Err(e),
    }
}

/// Reads the expiry option at `i`, whose name in upper case is `up`.
fn parse_expiry(args: &Vec<Value>, i: usize, opt: &Vec<u8>, up: &Vec<u8>, cmd: &'static str) -> (r:
    Option<Result<SetTtl, ProtoError>>)
    requires
        i < args@.len(),
        up@ == upper(opt@),
    ensures
        match r {
            Some(Ok(t)) => expiry_option(args@, i as int, opt@, cmd@) == Some(
                Ok::<SetTtl, ProtoErrorView>(t),
            ),
            Some(Err(e)) => expiry_option(args@, i as int, opt@, cmd@) == Some(
                Err::<SetTtl, ProtoErrorView>(e@),
            ),
            None => expiry_option(args@, i as int, opt@, cmd@) is None,
        },
{
    if is_word(up, "EX") {
        match expiry_after(args, i, cmd) {
            Ok(n) => Some(Ok(SetTtl::Seconds(n))),
            Err(e) => Some(Err(e)),
        }
    } else if is_word(up, "PX") {
        match expiry_after(args, i, cmd) {
            Ok(n) => Some(Ok(SetTtl::Millis(n))),
            Err(e) => Some(Err(e)),
        }
    } else if is_word(up, "EXAT") {
        match u64_after(args, i, cmd) {
            Ok(n) => Some(Ok(SetTtl::UnixSecs(n))),
            Err(e) => Some(Err(e)),
        }
    } else if is_word(up, "PXAT") {
        match u64_after(args, i, cmd) {
            Ok(n) => Some(Ok(SetTtl::UnixMillis(n))),
            Err(e) => Some(Err(e)),
        }
    } else {
        None
    }
}

fn parse_set(args: &Vec<Value>) -> (r: Result<Command, ProtoError>)
    ensures
        reads(r, set_command(args@)),
{
    if args.len() < 3 {
        return Err(ProtoError::WrongArity { cmd: "SET" });
    }
    let key = match bulk_at(args, 1) {
        Ok(b) => b,
        Err(e) => {
            return Err(e);
        },
    };
    let value = match bulk_at(args, 2) {
        Ok(b) => b,
        Err(e) => {
            return Err(e);
        },
    };
    let mut acc = SetArgs { ttl: None, condition: SetCondition::Always, get: false };
    let ghost start = acc;
    let mut i: usize = 3;
    while i < args.len()
        invariant
            3 <= i,
            args@.len() >= 3,
            arg(args@, 1) == Ok::<Seq<u8>, ProtoErrorView>(key@),
            arg(args@, 2) == Ok::<Seq<u8>, ProtoErrorView>(value@),
            start == (SetArgs { ttl: None, condition: SetCondition::Always, get: false }),
            set_options(args@, i as int, acc) == set_options(args@, 3, start),
        decreases args@.len() - i,
    {
        let opt = match bulk_at(args, i) {
            Ok(b) => b,
            Err(e) => {
                return Err(e);
            },
        };
        let up = to_upper(opt.as_slice());
        match parse_expiry(args, i, &opt, &up, "SET") {
            Some(Ok(t)) => {
                acc.ttl = Some(t);
                i = i + 2;
            },
            Some(Err(e)) => {
                return Err(e);
            },
            None => {
                if is_word(&up, "NX") {
                    acc.condition = SetCondition::Nx;
                    i = i + 1;
                } else if is_word(&up, "XX") {
                    acc.condition = SetCondition::Xx;
                    i = i + 1;
                } else if is_word(&up, "GET") {
                    acc.get = true;
                    i = i + 1;
                } else if is_word(&up, "KEEPTTL") {
                    i = i + 1;
                } else if is_word(&up, "REV") {
                    match u64_after(args, i, "SET") {
                        Ok(n) => {
                            acc.condition = SetCondition::Rev(n);
                        },
                        Err(e) => {
                            return Err(e);
                        },
                    }
                    i = i + 2;
                } else {
                    return Err(ProtoError::Syntax { token: opt });
                }
            },
        }
    }
    Ok(Command::SetKey { key, value, args: acc })
}

fn parse_setrev(args: &Vec<Value>) -> (r: Result<Command, ProtoError>)
    ensures
        reads(r, setrev_command(args@)),
{
    if args.len() < 4 {
        return Err(ProtoError::WrongArity { cmd: "SETREV" });
    }
    let key = match bulk_at(args, 1) {
        Ok(b) => b,
        Err(e) => {
            return Err(e);
        },
    };
    let value = match bulk_at(args, 2) {
        Ok(b) => b,
        Err(e) => {
            return Err(e);
        },
    };
    let revision: u64 = match parse_u64(args, 3) {
        Ok(n) => n,
        Err(e) => {
            return Err(e);
        },
    };
    let mut ttl: Option<SetTtl> = None;
    let mut i: usize = 4;
    while i < args.len()
        invariant
            4 <= i,
            args@.len() >= 4,
            arg(args@, 1) == Ok::<Seq<u8>, ProtoErrorView>(key@),
            arg(args@, 2) == Ok::<Seq<u8>, ProtoErrorView>(value@),
            arg_u64(args@, 3) == Ok::<u64, ProtoErrorView>(revision),
            setrev_options(args@, i as int, ttl) == setrev_options(args@, 4, None),
        decreases args@.len() - i,
    {
        let opt = match bulk_at(args, i) {
            Ok(b) => b,
            Err(e) => {
                return Err(e);
            },
        };
        let up = to_upper(opt.as_slice());
        match parse_expiry(args, i, &opt, &up, "SETREV") {
            Some(Ok(t)) => {
                ttl = Some(t);
                i = i + 2;
            },
            Some(Err(e)) => {
                return Err(e);
            },
            None => {
                return Err(ProtoError::Syntax { token: opt });
            },
        }
    }
    Ok(Command::SetRev { key, value, revision, ttl })
}

fn parse_getex(args: &Vec<Value>) -> (r: Result<Command, ProtoError>)
    ensures
        reads(r, getex_command(args@)),
{
    if args.len() < 2 {
        return Err(ProtoError::WrongArity { cmd: "GETEX" });
    }
    let key = match bulk_at(args, 1) {
        Ok(b) => b,
        Err(e) => {
            return Err(e);
        },
    };
    let mut ttl: Option<GetExTtl> = None;
    let mut i: usize = 2;
    while i < args.len()
        invariant
            2 <= i,
            args@.len() >= 2,
            arg(args@, 1) == Ok::<Seq<u8>, ProtoErrorView>(key@),
            getex_options(args@, i as int, ttl) == getex_options(args@, 2, None),
        decreases args@.len() - i,
    {
        let opt = match bulk_at(args, i) {
            Ok(b) => b,
            Err(e) => {
                return Err(e);
            },
        };
        let up = to_upper(opt.as_slice());
        match parse_expiry(args, i, &opt, &up, "GETEX") {
            Some(Ok(t)) => {
                ttl = Some(GetExTtl::SetTo(t));
                i = i + 2;
            },
            Some(Err(e)) => {
                return Err(e);
            },
            None => {
                if is_word(&up, "PERSIST") {
                    ttl = Some(GetExTtl::Persist);
                    i = i + 1;
                } else {
                    return Err(ProtoError::Syntax { token: opt });
                }
            },
        }
    }
    Ok(Command::GetEx { key, ttl })
}

fn parse_scan(args: &Vec<Value>) -> (r: Result<Command, ProtoError>)
    ensures
        reads(r, scan_command(args@)),
{
    if args.len() < 2 {
        return Err(ProtoError::WrongArity { cmd: "SCAN" });
    }
    let cursor = match bulk_at(args, 1) {
        Ok(b) => b,
        Err(e) => {
            return Err(e);
        },
    };
    let mut pattern: Option<Vec<u8>> = None;
    let mut count: u64 = 10;
    let mut i: usize = 2;
    while i < args.len()
        invariant
            2 <= i,
            args@.len() >= 2,
            arg(args@, 1) == Ok::<Seq<u8>, ProtoErrorView>(cursor@),
            scan_options(args@, i as int, opt_view(pattern), count) == scan_options(
                args@,
                2,
                None,
                10,
            ),
        decreases args@.len() - i,
    {
        let opt = match bulk_at(args, i) {
            Ok(b) => b,
            Err(e) => {
                return Err(e);
            },
        };
        let up = to_upper(opt.as_slice());
        if is_word(&up, "MATCH") {
            match text_after(args, i, "SCAN") {
                Ok(p) => {
                    pattern = Some(p);
                },
                Err(e) => {
                    return Err(e);
                },
            }
        } else if is_word(&up, "COUNT") {
            match u64_after(args, i, "SCAN") {
                Ok(n) => {
                    count = n;
                },
                Err(e) => {
                    return Err(e);
                },
            }
        } else {
            return Err(ProtoError::Syntax { token: opt });
        }
        i = i + 2;
    }
    Ok(Command::Scan { cursor, args: ScanArgs { pattern, count } })
}

fn parse_hello(args: &Vec<Value>) -> (r: Result<Command, ProtoError>)
    ensures
        reads(r, hello_command(args@)),
{
    if args.len() < 2 {
        return Ok(Command::Hello { version: None });
    }
    match bulk_at(args, 1) {
        Err(e) => Err(e),
        Ok(raw) => match decimal::read_u64(raw.as_slice()) {
            Some(n) => if n <= u8::MAX as u64 {
                Ok(Command::Hello { version: Some(n as u8) })
            } else {
                Err(ProtoError::InvalidInteger { raw })
            },
            None => Err(ProtoError::InvalidInteger { raw }),
        },
    }
}

fn parse_watch(args: &Vec<Value>) -> (r: Result<Command, ProtoError>)
    ensures
        reads(r, watch_command(args@)),
{
    let n: usize = args.len();
    if n < 2 {
        return Err(ProtoError::WrongArity { cmd: "WATCH" });
    }
    if n >= 3 {
        let opt = match bulk_at(args, n - 2) {
            Ok(b) => b,
            Err(e) => {
                return Err(e);
            },
        };
        let up = to_upper(opt.as_slice());
        if is_word(&up, "SINCE") {
            if n == 3 {
                return Err(ProtoError::WrongArity { cmd: "WATCH" });
            }
            let rev: u64 = match parse_u64(args, n - 1) {
                Ok(rev) => rev,
                Err(e) => {
                    return Err(e);
                },
            };
            return match bulks_between(args, 1, n - 2) {
                Ok(keys) => Ok(Command::Watch { keys, since: Some(rev) }),
                Err(e) => Err(e),
            };
        }
    }
    match bulks_between(args, 1, n) {
        Ok(keys) => Ok(Command::Watch { keys, since: None }),
        Err(e) => Err(e),
    }
}

fn parse_pwatch(args: &Vec<Value>) -> (r: Result<Command, ProtoError>)
    ensures
        reads(r, pwatch_command(args@)),
{
    if args.len() < 2 {
        return Err(ProtoError::WrongArity { cmd: "PWATCH" });
    }
    let prefix = match bulk_at(args, 1) {
        Ok(b) => b,
        Err(e) => {
            return Err(e);
        },
    };
    if args.len() < 4 {
        return Ok(Command::PWatch { prefix, since: None });
    }
    let opt = match bulk_at(args, 2) {
        Ok(b) => b,
        Err(e) => {
            return Err(e);
        },
    };
    let up = to_upper(opt.as_slice());
    if is_word(&up, "SINCE") {
        match parse_u64(args, 3) {
            Ok(rev) => Ok(Command::PWatch { prefix, since: Some(rev) }),
            Err(e) => Err(e),
        }
    } else {
        Ok(Command::PWatch { prefix, since: None })
    }
}

/// Reads `CMD key`.
fn parse_key(args: &Vec<Value>, cmd: &'static str) -> (r: Result<Vec<u8>, ProtoError>)
    ensures
        match r {
            Ok(b) => only_key(args@, cmd@) == Ok::<Seq<u8>, ProtoErrorView>(b@),
            Err(e) => only_key(args@, cmd@) == Err::<Seq<u8>, ProtoErrorView>(e@),
        },
{
    if args.len() != 2 {
        Err(ProtoError::WrongArity { cmd })
    } else {
        bulk_at(args, 1)
    }
}

/// Reads `CMD key number`, unsigned.
fn parse_key_u64(args: &Vec<Value>, cmd: &'static str) -> (r: Result<(Vec<u8>, u64), ProtoError>)
    ensures
        match r {
            Ok(p) => key_u64(args@, cmd@) == Ok::<(Seq<u8>, u64), ProtoErrorView>((p.0@, p.1)),
            Err(e) => key_u64(args@, cmd@) == Err::<(Seq<u8>, u64), ProtoErrorView>(e@),
        },
{
    if args.len() != 3 {
        return Err(ProtoError::WrongArity { cmd });
    }
    match bulk_at(args, 1) {
        Ok(k) => match parse_u64(args, 2) {
            Ok(n) => Ok((k, n)),
            Err(e) => Err(e),
        },
        Err(e) => Err(e),
    }
}

/// Reads `CMD key number`, signed.
fn parse_key_i64(args: &Vec<Value>, cmd: &'static str) -> (r: Result<(Vec<u8>, i64), ProtoError>)
    ensures
        match r {
            Ok(p) => key_i64(args@, cmd@) == Ok::<(Seq<u8>, i64), ProtoErrorView>((p.0@, p.1)),
            Err(e) => key_i64(args@, cmd@) == Err::<(Seq<u8>, i64), ProtoErrorView>(e@),
        },
{
    if args.len() != 3 {
        return Err(ProtoError::WrongArity { cmd });
    }
    match bulk_at(args, 1) {
        Ok(k) => match parse_i64(args, 2) {
            Ok(n) => Ok((k, n)),
            Err(e) => Err(e),
        },
        Err(e) => Err(e),
    }
}

/// Reads `CMD key value`.
fn parse_key_value(args: &Vec<Value>, cmd: &'static str) -> (r: Result<
    (Vec<u8>, Vec<u8>),
    ProtoError,
>)
    ensures
        match r {
            Ok(p) => key_value(args@, cmd@) == Ok::<(Seq<u8>, Seq<u8>), ProtoErrorView>((p.0@, p.1@)),
            Err(e) => key_value(args@, cmd@) == Err::<(Seq<u8>, Seq<u8>), ProtoErrorView>(e@),
        },
{
    if args.len() != 3 {
        return Err(ProtoError::WrongArity { cmd });
    }
    match bulk_at(args, 1) {
        Ok(k) => match bulk_at(args, 2) {
            Ok(v) => Ok((k, v)),
            Err(e) => Err(e),
        },
        Err(e) => Err(e),
    }
}

/// Reads `CMD key [key ...]`.
fn parse_keys(args: &Vec<Value>, cmd: &'static str) -> (r: Result<Vec<Vec<u8>>, ProtoError>)
    ensures
        match r {
            Ok(v) => some_keys(args@, cmd@) == Ok::<Seq<Seq<u8>>, ProtoErrorView>(views(v@)),
            Err(e) => some_keys(args@, cmd@) == Err::<Seq<Seq<u8>>, ProtoErrorView>(e@),
        },
{
    if args.len() < 2 {
        Err(ProtoError::WrongArity { cmd })
    } else {
        bulks_between(args, 1, args.len())
    }
}

/// Reads `CMD [text]`.
fn parse_optional(args: &Vec<Value>) -> (r: Result<Option<Vec<u8>>, ProtoError>)
    ensures
        match r {
            Ok(o) => optional_text(args@) == Ok::<Option<Seq<u8>>, ProtoErrorView>(opt_view(o)),
            Err(e) => optional_text(args@) == Err::<Option<Seq<u8>>, ProtoErrorView>(e@),
        },
{
    if args.len() >= 2 {
        match bulk_at(args, 1) {
            Ok(b) => Ok(Some(b)),
            Err(e) => Err(e),
        }
    } else {
        Ok(None)
    }
}

/// Reads the commands whose one argument is a key.
fn parse_key_commands(name: &Vec<u8>, up: &Vec<u8>, args: &Vec<Value>) -> (r: Option<
    Result<Command, ProtoError>,
>)
    requires
        up@ == upper(name@),
    ensures
        reads_group(r, key_commands(name@, args@)),
{
    if is_word(up, "GET") {
        match parse_key(args, "GET") {
            Ok(key) => Some(Ok(Command::Get { key })),
            Err(e) => Some(Err(e)),
        }
    } else if is_word(up, "TTL") {
        match parse_key(args, "TTL") {
            Ok(key) => Some(Ok(Command::Ttl { key })),
            Err(e) => Some(Err(e)),
        }
    } else if is_word(up, "PTTL") {
        match parse_key(args, "PTTL") {
            Ok(key) => Some(Ok(Command::PTtl { key })),
            Err(e) => Some(Err(e)),
        }
    } else if is_word(up, "PERSIST") {
        match parse_key(args, "PERSIST") {
            Ok(key) => Some(Ok(Command::Persist { key })),
            Err(e) => Some(Err(e)),
        }
    } else if is_word(up, "GETDEL") {
        match parse_key(args, "GETDEL") {
            Ok(key) => Some(Ok(Command::GetDel { key })),
            Err(e) => Some(Err(e)),
        }
    } else if is_word(up, "INCR") {
        match parse_key(args, "INCR") {
            Ok(key) => Some(Ok(Command::Incr { key })),
            Err(e) => Some(Err(e)),
        }
    } else if is_word(up, "DECR") {
        match parse_key(args, "DECR") {
            Ok(key) => Some(Ok(Command::Decr { key })),
            Err(e) => Some(Err(e)),
        }
    } else if is_word(up, "REVISION") {
        match parse_key(args, "REVISION") {
            Ok(key) => Some(Ok(Command::Revision { key })),
            Err(e) => Some(Err(e)),
        }
    } else {
        None
    }
}

/// Reads the commands that take a key and a number.
fn parse_number_commands(name: &Vec<u8>, up: &Vec<u8>, args: &Vec<Value>) -> (r: Option<
    Result<Command, ProtoError>,
>)
    requires
        up@ == upper(name@),
    ensures
        reads_group(r, number_commands(name@, args@)),
{
    if is_word(up, "EXPIRE") {
        match parse_key_u64(args, "EXPIRE") {
            Ok((key, secs)) => Some(Ok(Command::Expire { key, secs })),
            Err(e) => Some(Err(e)),
        }
    } else if is_word(up, "PEXPIRE") {
        match parse_key_u64(args, "PEXPIRE") {
            Ok((key, millis)) => Some(Ok(Command::PExpire { key, millis })),
            Err(e) => Some(Err(e)),
        }
    } else if is_word(up, "EXPIREAT") {
        match parse_key_u64(args, "EXPIREAT") {
            Ok((key, unix_secs)) => Some(Ok(Command::ExpireAt { key, unix_secs })),
            Err(e) => Some(Err(e)),
        }
    } else if is_word(up, "PEXPIREAT") {
        match parse_key_u64(args, "PEXPIREAT") {
            Ok((key, unix_millis)) => Some(Ok(Command::PExpireAt { key, unix_millis })),
            Err(e) => Some(Err(e)),
        }
    } else if is_word(up, "INCRBY") {
        match parse_key_i64(args, "INCRBY") {
            Ok((key, delta)) => Some(Ok(Command::IncrBy { key, delta })),
            Err(e) => Some(Err(e)),
        }
    } else if is_word(up, "DECRBY") {
        match parse_key_i64(args, "DECRBY") {
            Ok((key, delta)) => Some(Ok(Command::DecrBy { key, delta })),
            Err(e) => Some(Err(e)),
        }
    } else {
        None
    }
}

/// Reads the commands on a key and a value, on several keys, or on several pairs.
fn parse_bulk_commands(name: &Vec<u8>, up: &Vec<u8>, args: &Vec<Value>) -> (r: Option<
    Result<Command, ProtoError>,
>)
    requires
        up@ == upper(name@),
    ensures
        reads_group(r, bulk_commands(name@, args@)),
{
    if is_word(up, "GETSET") {
        match parse_key_value(args, "GETSET") {
            Ok((key, value)) => Some(Ok(Command::GetSet { key, value })),
            Err(e) => Some(Err(e)),
        }
    } else if is_word(up, "SETNX") {
        match parse_key_value(args, "SETNX") {
            Ok((key, value)) => Some(Ok(Command::SetNx { key, value })),
            Err(e) => Some(Err(e)),
        }
    } else if is_word(up, "DEL") {
        match parse_keys(args, "DEL") {
            Ok(keys) => Some(Ok(Command::Del { keys })),
            Err(e) => Some(Err(e)),
        }
    } else if is_word(up, "EXISTS") {
        match parse_keys(args, "EXISTS") {
            Ok(keys) => Some(Ok(Command::Exists { keys })),
            Err(e) => Some(Err(e)),
        }
    } else if is_word(up, "MGET") {
        match parse_keys(args, "MGET") {
            Ok(keys) => Some(Ok(Command::MGet { keys })),
            Err(e) => Some(Err(e)),
        }
    } else if is_word(up, "MSET") {
        if args.len() < 3 || (args.len() - 1) % 2 != 0 {
            return Some(Err(ProtoError::WrongArity { cmd: "MSET" }));
        }
        match bulk_pairs(args) {
            Ok(pairs) => Some(Ok(Command::MSet { pairs })),
            Err(e) => Some(Err(e)),
        }
    } else {
        None
    }
}

/// Reads the commands that have options.
fn parse_option_commands(name: &Vec<u8>, up: &Vec<u8>, args: &Vec<Value>) -> (r: Option<
    Result<Command, ProtoError>,
>)
    requires
        up@ == upper(name@),
    ensures
        reads_group(r, option_commands(name@, args@)),
{
    if is_word(up, "SET") {
        Some(parse_set(args))
    } else if is_word(up, "GETEX") {
        Some(parse_getex(args))
    } else if is_word(up, "SETREV") {
        Some(parse_setrev(args))
    } else if is_word(up, "SCAN") {
        Some(parse_scan(args))
    } else if is_word(up, "HELLO") {
        Some(parse_hello(args))
    } else if is_word(up, "WATCH") {
        Some(parse_watch(args))
    } else if is_word(up, "PWATCH") {
        Some(parse_pwatch(args))
    } else {
        None
    }
}

/// Reads the commands on the connection or on the whole database.
fn parse_server_commands(name: &Vec<u8>, up: &Vec<u8>, args: &Vec<Value>) -> (r: Option<
    Result<Command, ProtoError>,
>)
    requires
        up@ == upper(name@),
    ensures
        reads_group(r, server_commands(name@, args@)),
{
    if is_word(up, "DBSIZE") {
        Some(Ok(Command::DbSize))
    } else if is_word(up, "BGREWRITEAOF") {
        Some(Ok(Command::BgRewriteAof))
    } else if is_word(up, "QUIT") {
        Some(Ok(Command::Quit))
    } else if is_word(up, "RESET") {
        Some(Ok(Command::Reset))
    } else if is_word(up, "UNWATCH") {
        Some(Ok(Command::Unwatch))
    } else if is_word(up, "FLUSHDB") {
        if args.len() != 1 {
            Some(Err(ProtoError::WrongArity { cmd: "FLUSHDB" }))
        } else {
            Some(Ok(Command::FlushDb))
        }
    } else if is_word(up, "SELECT") {
        if args.len() != 2 {
            return Some(Err(ProtoError::WrongArity { cmd: "SELECT" }));
        }
        match parse_u64(args, 1) {
            Ok(db) => Some(Ok(Command::Select { db })),
            Err(e) => Some(Err(e)),
        }
    } else if is_word(up, "KEYS") {
        match parse_optional(args) {
            Ok(pattern) => Some(Ok(Command::Keys { pattern })),
            Err(e) => Some(Err(e)),
        }
    } else if is_word(up, "PING") {
        match parse_optional(args) {
            Ok(message) => Some(Ok(Command::Ping { message })),
            Err(e) => Some(Err(e)),
        }
    } else if is_word(up, "COMMAND") {
        Some(Ok(Command::Ping { message: None }))
    } else {
        None
    }
}

impl Command {
    /// Reads a request: an array of strings, the first of which is the command's name.
    pub fn parse(value: Value) -> (r: Result<Command, ProtoError>)
        ensures
            reads(r, command_of(value)),
            match r {
                Ok(c) => command_of(value) == Ok::<CommandView, ProtoErrorView>(c@),
                Err(e) => command_of(value) == Err::<CommandView, ProtoErrorView>(e@),
            },
    {
        let args = match value {
            Value::Array(args) => args,
            _ => {
                return Err(ProtoError::InvalidFormat { reason: "expected non-empty array" });
            },
        };
        if args.len() == 0 {
            return Err(ProtoError::InvalidFormat { reason: "expected non-empty array" });
        }
        let name = match bulk_at(&args, 0) {
            Ok(b) => b,
            Err(e) => {
                return Err(e);
            },
        };
        let up = to_upper(name.as_slice());
        if let Some(r) = parse_key_commands(&name, &up, &args) {
            return r;
        }
        if let Some(r) = parse_number_commands(&name, &up, &args) {
            return r;
        }
        if let Some(r) = parse_bulk_commands(&name, &up, &args) {
            return r;
        }
        if let Some(r) = parse_option_commands(&name, &up, &args) {
            return r;
        }
        if let Some(r) = parse_server_commands(&name, &up, &args) {
            return r;
        }
        Err(ProtoError::UnknownCommand { cmd: name })
    }
}

} // verus!
