//! Reading commands.
use beyond_kv::proto::command::{Command, GetExTtl, SetCondition, SetTtl};
use beyond_kv::proto::error::ProtoError;
use beyond_kv::proto::response;
use beyond_kv::proto::value::Value;

fn arr(parts: &[&[u8]]) -> Value {
    Value::Array(parts.iter().map(|b| Value::BulkString(b.to_vec())).collect())
}

// --- GET ---

#[test]
fn get_ok() {
    let cmd = Command::parse(arr(&[b"GET", b"mykey"])).unwrap();
    assert!(matches!(cmd, Command::Get { key } if key == b"mykey"));
}

#[test]
fn get_wrong_arity() {
    assert!(matches!(
        Command::parse(arr(&[b"GET"])),
        Err(ProtoError::WrongArity { cmd: "GET" })
    ));
}

// --- SET ---

#[test]
fn set_basic() {
    let cmd = Command::parse(arr(&[b"SET", b"k", b"v"])).unwrap();
    assert!(matches!(cmd, Command::SetKey { .. }));
}

#[test]
fn set_ex() {
    let cmd = Command::parse(arr(&[b"SET", b"k", b"v", b"EX", b"60"])).unwrap();
    match cmd {
        Command::SetKey { args, .. } => assert!(matches!(args.ttl, Some(SetTtl::Seconds(60)))),
        _ => panic!("wrong variant"),
    }
}

#[test]
fn set_px() {
    let cmd = Command::parse(arr(&[b"SET", b"k", b"v", b"PX", b"1000"])).unwrap();
    match cmd {
        Command::SetKey { args, .. } => assert!(matches!(args.ttl, Some(SetTtl::Millis(1000)))),
        _ => panic!("wrong variant"),
    }
}

#[test]
fn set_ex_zero_rejected() {
    assert!(matches!(
        Command::parse(arr(&[b"SET", b"k", b"v", b"EX", b"0"])),
        Err(ProtoError::InvalidExpiry { .. })
    ));
}

#[test]
fn set_px_zero_rejected() {
    assert!(matches!(
        Command::parse(arr(&[b"SET", b"k", b"v", b"PX", b"0"])),
        Err(ProtoError::InvalidExpiry { .. })
    ));
}

#[test]
fn set_ex_missing_value_panics_not() {
    assert!(matches!(
        Command::parse(arr(&[b"SET", b"k", b"v", b"EX"])),
        Err(ProtoError::WrongArity { cmd: "SET" })
    ));
}

#[test]
fn set_px_missing_value() {
    assert!(matches!(
        Command::parse(arr(&[b"SET", b"k", b"v", b"PX"])),
        Err(ProtoError::WrongArity { cmd: "SET" })
    ));
}

#[test]
fn set_exat_missing_value() {
    assert!(matches!(
        Command::parse(arr(&[b"SET", b"k", b"v", b"EXAT"])),
        Err(ProtoError::WrongArity { cmd: "SET" })
    ));
}

#[test]
fn set_pxat_missing_value() {
    assert!(matches!(
        Command::parse(arr(&[b"SET", b"k", b"v", b"PXAT"])),
        Err(ProtoError::WrongArity { cmd: "SET" })
    ));
}

#[test]
fn set_nx() {
    let cmd = Command::parse(arr(&[b"SET", b"k", b"v", b"NX"])).unwrap();
    match cmd {
        Command::SetKey { args, .. } => assert_eq!(args.condition, SetCondition::Nx),
        _ => panic!("wrong variant"),
    }
}

#[test]
fn set_xx() {
    let cmd = Command::parse(arr(&[b"SET", b"k", b"v", b"XX"])).unwrap();
    match cmd {
        Command::SetKey { args, .. } => assert_eq!(args.condition, SetCondition::Xx),
        _ => panic!("wrong variant"),
    }
}

#[test]
fn set_get_flag() {
    let cmd = Command::parse(arr(&[b"SET", b"k", b"v", b"GET"])).unwrap();
    match cmd {
        Command::SetKey { args, .. } => assert!(args.get),
        _ => panic!("wrong variant"),
    }
}

#[test]
fn set_keepttl() {
    // KEEPTTL is the longest option name.
    let cmd = Command::parse(arr(&[b"SET", b"k", b"v", b"KEEPTTL"])).unwrap();
    assert!(matches!(cmd, Command::SetKey { .. }));
}

#[test]
fn set_wrong_arity() {
    assert!(matches!(
        Command::parse(arr(&[b"SET", b"k"])),
        Err(ProtoError::WrongArity { cmd: "SET" })
    ));
}

#[test]
fn set_syntax_error() {
    assert!(matches!(
        Command::parse(arr(&[b"SET", b"k", b"v", b"BOGUS"])),
        Err(ProtoError::Syntax { .. })
    ));
}

// --- DEL / EXISTS ---

#[test]
fn del_single() {
    let cmd = Command::parse(arr(&[b"DEL", b"k"])).unwrap();
    assert!(matches!(cmd, Command::Del { keys } if keys.len() == 1));
}

#[test]
fn del_multi() {
    let cmd = Command::parse(arr(&[b"DEL", b"a", b"b", b"c"])).unwrap();
    assert!(matches!(cmd, Command::Del { keys } if keys.len() == 3));
}

#[test]
fn del_wrong_arity() {
    assert!(matches!(
        Command::parse(arr(&[b"DEL"])),
        Err(ProtoError::WrongArity { cmd: "DEL" })
    ));
}

#[test]
fn exists_multi() {
    let cmd = Command::parse(arr(&[b"EXISTS", b"a", b"b"])).unwrap();
    assert!(matches!(cmd, Command::Exists { keys } if keys.len() == 2));
}

// --- TTL commands ---

#[test]
fn expire_ok() {
    let cmd = Command::parse(arr(&[b"EXPIRE", b"k", b"30"])).unwrap();
    assert!(matches!(cmd, Command::Expire { secs: 30, .. }));
}

#[test]
fn pexpire_ok() {
    let cmd = Command::parse(arr(&[b"PEXPIRE", b"k", b"5000"])).unwrap();
    assert!(matches!(cmd, Command::PExpire { millis: 5000, .. }));
}

#[test]
fn ttl_ok() {
    let cmd = Command::parse(arr(&[b"TTL", b"k"])).unwrap();
    assert!(matches!(cmd, Command::Ttl { .. }));
}

#[test]
fn persist_ok() {
    let cmd = Command::parse(arr(&[b"PERSIST", b"k"])).unwrap();
    assert!(matches!(cmd, Command::Persist { .. }));
}

// --- SCAN ---

#[test]
fn scan_basic() {
    let cmd = Command::parse(arr(&[b"SCAN", b"0"])).unwrap();
    assert!(matches!(cmd, Command::Scan { ref cursor, .. } if cursor == b"0"));
}

#[test]
fn scan_with_match() {
    let cmd = Command::parse(arr(&[b"SCAN", b"0", b"MATCH", b"foo*"])).unwrap();
    match cmd {
        Command::Scan { args, .. } => {
            assert_eq!(args.pattern.as_deref(), Some(b"foo*".as_slice()))
        }
        _ => panic!("wrong variant"),
    }
}

#[test]
fn scan_with_count() {
    let cmd = Command::parse(arr(&[b"SCAN", b"0", b"COUNT", b"100"])).unwrap();
    match cmd {
        Command::Scan { args, .. } => assert_eq!(args.count, 100),
        _ => panic!("wrong variant"),
    }
}

#[test]
fn scan_match_missing_value() {
    assert!(matches!(
        Command::parse(arr(&[b"SCAN", b"0", b"MATCH"])),
        Err(ProtoError::WrongArity { cmd: "SCAN" })
    ));
}

#[test]
fn scan_count_missing_value() {
    assert!(matches!(
        Command::parse(arr(&[b"SCAN", b"0", b"COUNT"])),
        Err(ProtoError::WrongArity { cmd: "SCAN" })
    ));
}

// --- MGET / MSET ---

#[test]
fn mget_ok() {
    let cmd = Command::parse(arr(&[b"MGET", b"a", b"b"])).unwrap();
    assert!(matches!(cmd, Command::MGet { keys } if keys.len() == 2));
}

#[test]
fn mset_ok() {
    let cmd = Command::parse(arr(&[b"MSET", b"k1", b"v1", b"k2", b"v2"])).unwrap();
    assert!(matches!(cmd, Command::MSet { pairs } if pairs.len() == 2));
}

#[test]
fn mset_odd_args_rejected() {
    assert!(matches!(
        Command::parse(arr(&[b"MSET", b"k1", b"v1", b"k2"])),
        Err(ProtoError::WrongArity { cmd: "MSET" })
    ));
}

// --- GETEX ---

#[test]
fn getex_no_ttl() {
    let cmd = Command::parse(arr(&[b"GETEX", b"k"])).unwrap();
    assert!(matches!(cmd, Command::GetEx { ttl: None, .. }));
}

#[test]
fn getex_persist() {
    let cmd = Command::parse(arr(&[b"GETEX", b"k", b"PERSIST"])).unwrap();
    assert!(matches!(
        cmd,
        Command::GetEx {
            ttl: Some(GetExTtl::Persist),
            ..
        }
    ));
}

#[test]
fn getex_ex() {
    let cmd = Command::parse(arr(&[b"GETEX", b"k", b"EX", b"60"])).unwrap();
    assert!(matches!(
        cmd,
        Command::GetEx {
            ttl: Some(GetExTtl::SetTo(SetTtl::Seconds(60))),
            ..
        }
    ));
}

#[test]
fn getex_ex_zero_rejected() {
    assert!(matches!(
        Command::parse(arr(&[b"GETEX", b"k", b"EX", b"0"])),
        Err(ProtoError::InvalidExpiry { .. })
    ));
}

#[test]
fn getex_ex_missing_value() {
    assert!(matches!(
        Command::parse(arr(&[b"GETEX", b"k", b"EX"])),
        Err(ProtoError::WrongArity { cmd: "GETEX" })
    ));
}

// --- SELECT ---

#[test]
fn select_ok() {
    let cmd = Command::parse(arr(&[b"SELECT", b"0"])).unwrap();
    assert!(matches!(cmd, Command::Select { db: 0 }));
}

#[test]
fn select_max_ok() {
    let cmd = Command::parse(arr(&[b"SELECT", b"15"])).unwrap();
    assert!(matches!(cmd, Command::Select { db: 15 }));
}

#[test]
fn select_large_db_ok() {
    let cmd = Command::parse(arr(&[b"SELECT", b"16"])).unwrap();
    assert!(matches!(cmd, Command::Select { db: 16 }));
    let cmd = Command::parse(arr(&[b"SELECT", b"999"])).unwrap();
    assert!(matches!(cmd, Command::Select { db: 999 }));
}

#[test]
fn select_non_integer() {
    assert!(matches!(
        Command::parse(arr(&[b"SELECT", b"abc"])),
        Err(ProtoError::InvalidInteger { .. })
    ));
}

// --- Misc ---

#[test]
fn ping_no_message() {
    let cmd = Command::parse(arr(&[b"PING"])).unwrap();
    assert!(matches!(cmd, Command::Ping { message: None }));
}

#[test]
fn ping_with_message() {
    let cmd = Command::parse(arr(&[b"PING", b"hello"])).unwrap();
    assert!(matches!(cmd, Command::Ping { message: Some(_) }));
}

#[test]
fn hello_no_version() {
    let cmd = Command::parse(arr(&[b"HELLO"])).unwrap();
    assert!(matches!(cmd, Command::Hello { version: None }));
}

#[test]
fn hello_with_version() {
    let cmd = Command::parse(arr(&[b"HELLO", b"3"])).unwrap();
    assert!(matches!(cmd, Command::Hello { version: Some(3) }));
}

#[test]
fn unknown_command() {
    assert!(matches!(
        Command::parse(arr(&[b"NOTACOMMAND"])),
        Err(ProtoError::UnknownCommand { .. })
    ));
}

#[test]
fn empty_array_rejected() {
    assert!(matches!(
        Command::parse(Value::Array(vec![])),
        Err(ProtoError::InvalidFormat { .. })
    ));
}

#[test]
fn case_insensitive() {
    let cmd = Command::parse(arr(&[b"get", b"k"])).unwrap();
    assert!(matches!(cmd, Command::Get { .. }));
    let cmd = Command::parse(arr(&[b"Set", b"k", b"v"])).unwrap();
    assert!(matches!(cmd, Command::SetKey { .. }));
}

#[test]
fn dbsize_ok() {
    let cmd = Command::parse(arr(&[b"DBSIZE"])).unwrap();
    assert!(matches!(cmd, Command::DbSize));
}

#[test]
fn flushdb_ok() {
    let cmd = Command::parse(arr(&[b"FLUSHDB"])).unwrap();
    assert!(matches!(cmd, Command::FlushDb));
}

#[test]
fn flushdb_extra_args_rejected() {
    assert!(matches!(
        Command::parse(arr(&[b"FLUSHDB", b"ASYNC"])),
        Err(ProtoError::WrongArity { cmd: "FLUSHDB" })
    ));
}

#[test]
fn quit_ok() {
    let cmd = Command::parse(arr(&[b"QUIT"])).unwrap();
    assert!(matches!(cmd, Command::Quit));
}

#[test]
fn hello_version_overflow_rejected() {
    assert!(matches!(
        Command::parse(arr(&[b"HELLO", b"256"])),
        Err(ProtoError::InvalidInteger { .. })
    ));
}

#[test]
fn set_oversized_option_rejected() {
    assert!(matches!(
        Command::parse(arr(&[b"SET", b"k", b"v", b"TOOLONGOPTION"])),
        Err(ProtoError::Syntax { .. })
    ));
}

#[test]
fn scan_oversized_option_rejected() {
    assert!(matches!(
        Command::parse(arr(&[b"SCAN", b"0", b"TOOLONGOPTION"])),
        Err(ProtoError::Syntax { .. })
    ));
}

#[test]
fn getex_oversized_option_rejected() {
    assert!(matches!(
        Command::parse(arr(&[b"GETEX", b"k", b"TOOLONGOPTION"])),
        Err(ProtoError::Syntax { .. })
    ));
}

// --- WATCH / PWATCH / UNWATCH ---

#[test]
fn watch_single_key() {
    let cmd = Command::parse(arr(&[b"WATCH", b"mykey"])).unwrap();
    assert!(matches!(cmd, Command::Watch { keys, since: None } if keys.len() == 1));
}

#[test]
fn watch_multi_key() {
    let cmd = Command::parse(arr(&[b"WATCH", b"a", b"b", b"c"])).unwrap();
    assert!(matches!(cmd, Command::Watch { keys, since: None } if keys.len() == 3));
}

#[test]
fn watch_with_since() {
    let cmd = Command::parse(arr(&[b"WATCH", b"k", b"SINCE", b"42"])).unwrap();
    match cmd {
        Command::Watch { since, .. } => assert_eq!(since, Some(42)),
        _ => panic!("wrong variant"),
    }
}

#[test]
fn watch_wrong_arity() {
    assert!(matches!(
        Command::parse(arr(&[b"WATCH"])),
        Err(ProtoError::WrongArity { cmd: "WATCH" })
    ));
}

#[test]
fn pwatch_basic() {
    let cmd = Command::parse(arr(&[b"PWATCH", b"user:"])).unwrap();
    assert!(matches!(cmd, Command::PWatch { since: None, .. }));
}

#[test]
fn pwatch_with_since() {
    let cmd = Command::parse(arr(&[b"PWATCH", b"user:", b"SINCE", b"100"])).unwrap();
    match cmd {
        Command::PWatch { since, .. } => assert_eq!(since, Some(100)),
        _ => panic!("wrong variant"),
    }
}

#[test]
fn pwatch_wrong_arity() {
    assert!(matches!(
        Command::parse(arr(&[b"PWATCH"])),
        Err(ProtoError::WrongArity { cmd: "PWATCH" })
    ));
}

#[test]
fn unwatch_ok() {
    let cmd = Command::parse(arr(&[b"UNWATCH"])).unwrap();
    assert!(matches!(cmd, Command::Unwatch));
}

// --- REVISION ---

#[test]
fn revision_ok() {
    let cmd = Command::parse(arr(&[b"REVISION", b"mykey"])).unwrap();
    assert!(matches!(cmd, Command::Revision { key } if key == b"mykey"));
}

#[test]
fn revision_wrong_arity() {
    assert!(matches!(
        Command::parse(arr(&[b"REVISION"])),
        Err(ProtoError::WrongArity { cmd: "REVISION" })
    ));
}

// --- SETREV ---

#[test]
fn setrev_basic() {
    let cmd = Command::parse(arr(&[b"SETREV", b"k", b"v", b"99"])).unwrap();
    assert!(matches!(
        cmd,
        Command::SetRev {
            revision: 99,
            ttl: None,
            ..
        }
    ));
}

#[test]
fn setrev_with_ex() {
    let cmd = Command::parse(arr(&[b"SETREV", b"k", b"v", b"99", b"EX", b"30"])).unwrap();
    assert!(matches!(
        cmd,
        Command::SetRev {
            revision: 99,
            ttl: Some(SetTtl::Seconds(30)),
            ..
        }
    ));
}

#[test]
fn setrev_wrong_arity() {
    assert!(matches!(
        Command::parse(arr(&[b"SETREV", b"k", b"v"])),
        Err(ProtoError::WrongArity { cmd: "SETREV" })
    ));
}

#[test]
fn setrev_invalid_revision() {
    assert!(matches!(
        Command::parse(arr(&[b"SETREV", b"k", b"v", b"notanumber"])),
        Err(ProtoError::InvalidInteger { .. })
    ));
}

// --- SET REV condition ---

#[test]
fn set_rev_condition() {
    let cmd = Command::parse(arr(&[b"SET", b"k", b"v", b"REV", b"7"])).unwrap();
    match cmd {
        Command::SetKey { args, .. } => assert_eq!(args.condition, SetCondition::Rev(7)),
        _ => panic!("wrong variant"),
    }
}

// --- KEYS ---

#[test]
fn keys_no_pattern() {
    let cmd = Command::parse(arr(&[b"KEYS"])).unwrap();
    assert!(matches!(cmd, Command::Keys { pattern: None }));
}

#[test]
fn keys_with_pattern() {
    let cmd = Command::parse(arr(&[b"KEYS", b"user:*"])).unwrap();
    match cmd {
        Command::Keys { pattern: Some(p) } => assert_eq!(p, b"user:*"),
        _ => panic!("wrong variant"),
    }
}

// --- GETSET ---

#[test]
fn getset_ok() {
    let cmd = Command::parse(arr(&[b"GETSET", b"k", b"v"])).unwrap();
    assert!(matches!(cmd, Command::GetSet { .. }));
}

#[test]
fn getset_wrong_arity() {
    assert!(matches!(
        Command::parse(arr(&[b"GETSET", b"k"])),
        Err(ProtoError::WrongArity { cmd: "GETSET" })
    ));
}

// --- INCR / INCRBY / DECR / DECRBY ---

#[test]
fn incr_ok() {
    let cmd = Command::parse(arr(&[b"INCR", b"counter"])).unwrap();
    assert!(matches!(cmd, Command::Incr { .. }));
}

#[test]
fn incrby_ok() {
    let cmd = Command::parse(arr(&[b"INCRBY", b"counter", b"5"])).unwrap();
    assert!(matches!(cmd, Command::IncrBy { delta: 5, .. }));
}

#[test]
fn incrby_negative() {
    let cmd = Command::parse(arr(&[b"INCRBY", b"counter", b"-3"])).unwrap();
    assert!(matches!(cmd, Command::IncrBy { delta: -3, .. }));
}

#[test]
fn incrby_wrong_arity() {
    assert!(matches!(
        Command::parse(arr(&[b"INCRBY", b"counter"])),
        Err(ProtoError::WrongArity { cmd: "INCRBY" })
    ));
}

#[test]
fn decr_ok() {
    let cmd = Command::parse(arr(&[b"DECR", b"counter"])).unwrap();
    assert!(matches!(cmd, Command::Decr { .. }));
}

#[test]
fn decrby_ok() {
    let cmd = Command::parse(arr(&[b"DECRBY", b"counter", b"10"])).unwrap();
    assert!(matches!(cmd, Command::DecrBy { delta: 10, .. }));
}

#[test]
fn decrby_wrong_arity() {
    assert!(matches!(
        Command::parse(arr(&[b"DECRBY", b"counter"])),
        Err(ProtoError::WrongArity { cmd: "DECRBY" })
    ));
}

// --- Error details, edge cases ---

#[test]
fn request_that_is_no_array_is_rejected() {
    for v in [Value::Null, Value::Integer(1), Value::BulkString(b"GET".to_vec()), Value::Other] {
        assert!(matches!(Command::parse(v), Err(ProtoError::InvalidFormat { .. })));
    }
}

#[test]
fn argument_that_is_no_string_is_rejected() {
    let v = Value::Array(vec![Value::BulkString(b"GET".to_vec()), Value::Integer(7)]);
    assert!(matches!(Command::parse(v), Err(ProtoError::InvalidFormat { .. })));
}

#[test]
fn simple_strings_are_read_as_well() {
    let v = Value::Array(vec![
        Value::SimpleString(b"GET".to_vec()),
        Value::SimpleString(b"k".to_vec()),
    ]);
    assert!(matches!(Command::parse(v), Ok(Command::Get { key }) if key == b"k"));
}

#[test]
fn errors_carry_the_offending_argument() {
    match Command::parse(arr(&[b"EXPIRE", b"k", b"1x"])) {
        Err(ProtoError::InvalidInteger { raw }) => assert_eq!(raw, b"1x"),
        other => panic!("{other:?}"),
    }
    match Command::parse(arr(&[b"SET", b"k", b"v", b"PX", b"0"])) {
        Err(ProtoError::InvalidExpiry { raw }) => assert_eq!(raw, b"0"),
        other => panic!("{other:?}"),
    }
    match Command::parse(arr(&[b"SET", b"k", b"v", b"bogus"])) {
        Err(ProtoError::Syntax { token }) => assert_eq!(token, b"bogus"),
        other => panic!("{other:?}"),
    }
    match Command::parse(arr(&[b"nope", b"k"])) {
        Err(ProtoError::UnknownCommand { cmd }) => assert!(cmd.eq_ignore_ascii_case(b"nope")),
        other => panic!("{other:?}"),
    }
}

#[test]
fn integers_reach_their_limits() {
    let cmd = Command::parse(arr(&[b"INCRBY", b"k", b"-9223372036854775808"])).unwrap();
    assert!(matches!(cmd, Command::IncrBy { delta: i64::MIN, .. }));
    let cmd = Command::parse(arr(&[b"PEXPIRE", b"k", b"18446744073709551615"])).unwrap();
    assert!(matches!(cmd, Command::PExpire { millis: u64::MAX, .. }));
    assert!(matches!(
        Command::parse(arr(&[b"PEXPIRE", b"k", b"18446744073709551616"])),
        Err(ProtoError::InvalidInteger { .. })
    ));
}

#[test]
fn set_takes_several_options() {
    let cmd = Command::parse(arr(&[b"SET", b"k", b"v", b"nx", b"get", b"PXAT", b"77"])).unwrap();
    match cmd {
        Command::SetKey { key, value, args } => {
            assert_eq!(key, b"k");
            assert_eq!(value, b"v");
            assert_eq!(args.condition, SetCondition::Nx);
            assert_eq!(args.ttl, Some(SetTtl::UnixMillis(77)));
            assert!(args.get);
        }
        _ => panic!("wrong variant"),
    }
}

#[test]
fn mset_pairs_keys_with_values() {
    let cmd = Command::parse(arr(&[b"MSET", b"k1", b"v1", b"k2", b"v2"])).unwrap();
    match cmd {
        Command::MSet { pairs } => {
            assert_eq!(pairs[0], (b"k1".to_vec(), b"v1".to_vec()));
            assert_eq!(pairs[1], (b"k2".to_vec(), b"v2".to_vec()));
        }
        _ => panic!("wrong variant"),
    }
}

#[test]
fn scan_counts_ten_by_default() {
    let cmd = Command::parse(arr(&[b"SCAN", b"0"])).unwrap();
    match cmd {
        Command::Scan { args, .. } => {
            assert_eq!(args.count, 10);
            assert!(args.pattern.is_none());
        }
        _ => panic!("wrong variant"),
    }
}

#[test]
fn watch_needs_a_key_before_since() {
    for word in [b"SINCE".as_slice(), b"since"] {
        assert!(matches!(
            Command::parse(arr(&[b"WATCH", word, b"42"])),
            Err(ProtoError::WrongArity { cmd: "WATCH" })
        ));
    }
    match Command::parse(arr(&[b"WATCH", b"SINCE", b"SINCE", b"42"])).unwrap() {
        Command::Watch { keys, since } => {
            assert_eq!(keys, vec![b"SINCE".to_vec()]);
            assert_eq!(since, Some(42));
        }
        _ => panic!("wrong variant"),
    }
}

#[test]
fn getex_and_set_read_the_same_expiry() {
    for (opt, n) in [(b"ex".as_slice(), b"60".as_slice()), (b"PXAT", b"0"), (b"EXAT", b"7")] {
        let set = Command::parse(arr(&[b"SET", b"k", b"v", opt, n])).unwrap();
        let getex = Command::parse(arr(&[b"GETEX", b"k", opt, n])).unwrap();
        match (set, getex) {
            (Command::SetKey { args, .. }, Command::GetEx { ttl: Some(GetExTtl::SetTo(t)), .. }) => {
                assert_eq!(args.ttl, Some(t))
            }
            _ => panic!("wrong variant"),
        }
    }
    for n in [b"0".as_slice(), b"x"] {
        let set = format!("{:?}", Command::parse(arr(&[b"SET", b"k", b"v", b"PX", n])).unwrap_err());
        let getex = format!("{:?}", Command::parse(arr(&[b"GETEX", b"k", b"PX", n])).unwrap_err());
        assert_eq!(set, getex);
    }
}

// --- replies ---

#[test]
fn replies_have_their_wire_shape() {
    assert!(matches!(response::ok(), Value::SimpleString(s) if s == b"OK"));
    assert!(matches!(response::nil(), Value::Null));
    assert!(matches!(response::integer(-2), Value::Integer(-2)));
    assert!(matches!(response::bulk(b"x".to_vec()), Value::BulkString(b) if b == b"x"));
    assert!(matches!(response::error("ERR", "no"), Value::SimpleError(s) if s == b"ERR no"));
    assert!(matches!(
        response::err_wrong_type(),
        Value::SimpleError(s)
            if s == b"WRONGTYPE Operation against a key holding the wrong kind of value"
    ));
    assert!(matches!(response::array(vec![Value::Null]), Value::Array(v) if v.len() == 1));
}

#[test]
fn scan_reply_holds_cursor_and_keys() {
    match response::scan_reply(b"7".to_vec(), vec![b"a".to_vec(), b"b".to_vec()]) {
        Value::Array(parts) => {
            assert_eq!(parts.len(), 2);
            assert!(matches!(&parts[0], Value::BulkString(c) if c == b"7"));
            match &parts[1] {
                Value::Array(keys) => {
                    assert_eq!(keys.len(), 2);
                    assert!(matches!(&keys[1], Value::BulkString(k) if k == b"b"));
                }
                other => panic!("{other:?}"),
            }
        }
        other => panic!("{other:?}"),
    }
}

#[test]
fn hello_reply_names_the_protocol() {
    match response::hello_reply(3) {
        Value::Pairs(p) => {
            assert_eq!(p.len(), 5);
            assert!(matches!(&p[1], (Value::SimpleString(k), Value::SimpleString(v))
                if k == b"version" && v == response::VERSION.as_bytes()));
            assert!(matches!(&p[2], (Value::SimpleString(k), Value::Integer(3)) if k == b"proto"));
        }
        other => panic!("{other:?}"),
    }
}

#[test]
fn only_the_case_of_the_name_is_ignored() {
    let requests: [&[&[u8]]; 7] = [
        &[b"set", b"Key", b"Value", b"ex", b"60"],
        &[b"set", b"Key", b"Value", b"EX", b"0"],
        &[b"mset", b"A", b"b", b"C", b"d"],
        &[b"watch", b"Key", b"since", b"42"],
        &[b"scan", b"0", b"match", b"Pre*", b"count", b"5"],
        &[b"getex", b"Key", b"persist"],
        &[b"get"],
    ];
    for parts in requests {
        let name = parts[0].to_ascii_uppercase();
        let mut loud = parts.to_vec();
        loud[0] = &name;
        let a = Command::parse(arr(parts));
        let b = Command::parse(arr(&loud));
        assert_eq!(format!("{a:?}"), format!("{b:?}"));
    }
    match Command::parse(arr(&[b"sEt", b"kEy", b"vAl"])) {
        Ok(Command::SetKey { key, value, .. }) => assert!(key == b"kEy" && value == b"vAl"),
        _ => panic!("wrong variant"),
    }
    let unknown = Command::parse(arr(&[b"nOne", b"k"]));
    assert!(matches!(unknown, Err(ProtoError::UnknownCommand { cmd }) if cmd == b"nOne"));
}
