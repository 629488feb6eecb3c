//! Benchmarks: keys, operations, schedules, statistics and timestamps.
use beyond_kv::bench::calendar::{civil_from_days, current_timestamp, timestamp_text};
use beyond_kv::bench::driver::{execute_one, populate_share, us, worker_seed};
use beyond_kv::bench::error::BenchError;
use beyond_kv::bench::keyspace::{format_key, Keyspace};
use beyond_kv::bench::metrics::{
    env_or, given, kinds_seen, merge_workers, new_histogram, overall, KindStats, WorkerStats,
};
use beyond_kv::bench::targets::Resp;
use beyond_kv::bench::workload::{Op, OpKind, OpMix, Workload};

#[test]
fn dates_of_known_days() {
    assert_eq!(civil_from_days(0), (1970, 1, 1));
    assert_eq!(civil_from_days(-1), (1969, 12, 31));
    assert_eq!(civil_from_days(59), (1970, 3, 1));
    assert_eq!(civil_from_days(11_016), (2000, 2, 29));
    assert_eq!(civil_from_days(19_782), (2024, 2, 29));
    assert_eq!(civil_from_days(-719_468), (0, 3, 1));
    assert_eq!(civil_from_days(-719_469), (0, 2, 29));
    assert_eq!(civil_from_days(47_541), (2100, 3, 1));
}

#[test]
fn days_follow_each_other() {
    let (mut y, mut m, mut d) = civil_from_days(-800_000);
    for z in -799_999i64..-780_000 {
        let next = civil_from_days(z);
        if next.2 != 1 {
            assert_eq!(next, (y, m, d + 1));
        } else if next.1 != 1 {
            assert_eq!((next.0, next.1), (y, m + 1));
        } else {
            assert_eq!((next.0, m, d), (y + 1, 12, 31));
        }
        (y, m, d) = next;
    }
}

#[test]
fn timestamps_are_rfc3339() {
    assert_eq!(timestamp_text(0), "1970-01-01T00:00:00Z");
    assert_eq!(timestamp_text(1_709_210_096), "2024-02-29T12:34:56Z");
    assert_eq!(timestamp_text(253_402_300_799), "9999-12-31T23:59:59Z");
    assert_eq!(timestamp_text(253_402_300_800), "10000-01-01T00:00:00Z");
    let now = current_timestamp();
    assert_eq!(now.len(), 20);
    assert!(now.as_str() > "2024-01-01T00:00:00Z");
}

#[test]
fn keys_have_a_fixed_width() {
    assert_eq!(format_key(0), b"k:0000000000000000");
    assert_eq!(format_key(0xdead_beef), b"k:00000000deadbeef");
    assert_eq!(format_key(u64::MAX), b"k:ffffffffffffffff");
}

#[test]
fn keyspace_enumerates_its_keys() {
    let k = Keyspace::new(3).unwrap();
    assert_eq!(k.size(), 3);
    assert_eq!(k.nth(4), format_key(1));
    assert_eq!(k.sample(2), format_key(2));
}

#[test]
fn keyspaces_that_cannot_be_had() {
    assert!(matches!(Keyspace::new(0), Err(BenchError::NoKeys)));
    assert!(matches!(Keyspace::new_sharded(5, 0, 0), Err(BenchError::NoShards)));
    assert!(matches!(Keyspace::new_sharded(5, 2, 2), Err(BenchError::ShardIndexTooHigh)));
    assert!(matches!(
        Keyspace::select(2, &vec![4, 6], 1, 2),
        Err(BenchError::EmptyShard)
    ));
}

#[test]
fn shards_share_the_keys_out() {
    let total = 500u64;
    let shards = 7usize;
    let mut seen: Vec<Vec<u8>> = Vec::new();
    for s in 0..shards {
        if let Ok(k) = Keyspace::new_sharded(total, s, shards) {
            for i in 0..k.size() {
                seen.push(k.nth(i));
            }
        }
    }
    seen.sort();
    let all: Vec<Vec<u8>> = (0..total).map(format_key).collect();
    assert_eq!(seen, all);
}

#[test]
fn shards_are_chosen_by_hash() {
    let k = Keyspace::select(4, &vec![10, 11, 12, 13], 1, 2).unwrap();
    assert_eq!(k.size(), 2);
    assert_eq!(k.sample(0), format_key(1));
    assert_eq!(k.sample(1), format_key(3));
    assert_eq!(k.nth(2), format_key(1));
}

#[test]
fn op_mixes_are_read() {
    assert_eq!(OpMix::parse("get"), Ok(OpMix::GetOnly));
    assert_eq!(OpMix::parse("get-only"), Ok(OpMix::GetOnly));
    assert_eq!(OpMix::parse("set"), Ok(OpMix::SetOnly));
    assert_eq!(OpMix::parse("set-only"), Ok(OpMix::SetOnly));
    assert_eq!(OpMix::parse("mixed:80"), Ok(OpMix::Mixed { read_pct: 80 }));
    assert_eq!(OpMix::parse("mixed:100"), Ok(OpMix::Mixed { read_pct: 100 }));
    assert_eq!(OpMix::parse("mixed:101"), Err(BenchError::PercentageTooHigh));
    assert_eq!(OpMix::parse("mixed:256"), Err(BenchError::BadPercentage));
    assert_eq!(OpMix::parse("mixed:x"), Err(BenchError::BadPercentage));
    assert_eq!(OpMix::parse("bogus"), Err(BenchError::UnknownMix));
}

fn workload(mix: OpMix, value_size: usize, batch: usize) -> Workload {
    Workload::new(Keyspace::new(10).unwrap(), mix, value_size, batch)
}

#[test]
fn values_are_deterministic_filler() {
    let w = workload(OpMix::SetOnly, 300, 1);
    assert_eq!(w.value().len(), 300);
    assert_eq!(w.value()[0], 0x20);
    assert_eq!(w.value()[223], 0xff);
    assert_eq!(w.value()[224], 0);
    assert_eq!(w.value()[299], 75);
    assert_eq!(w.keyspace().size(), 10);
}

#[test]
fn mix_and_roll_choose_the_operation() {
    let w = workload(OpMix::Mixed { read_pct: 80 }, 2, 1);
    assert_eq!(w.keys_per_op(), 1);
    assert!(w.rolls());
    assert!(!workload(OpMix::GetOnly, 2, 1).rolls());
    match w.next(&vec![3], 79) {
        Op::Get { key } => assert_eq!(key, format_key(3)),
        other => panic!("{other:?}"),
    }
    let op = w.next(&vec![3], 80);
    assert_eq!(op.kind(), OpKind::SetKey);
    assert_eq!(op.keys(), 1);
    match op {
        Op::SetKey { key, value } => {
            assert_eq!(key, format_key(3));
            assert_eq!(value, vec![0x20, 0x21]);
        }
        other => panic!("{other:?}"),
    }
    assert_eq!(workload(OpMix::GetOnly, 2, 1).next(&vec![0], 99).kind(), OpKind::Get);
    assert_eq!(workload(OpMix::SetOnly, 2, 1).next(&vec![0], 0).kind(), OpKind::SetKey);
}

#[test]
fn batches_hold_several_keys() {
    let w = workload(OpMix::Mixed { read_pct: 50 }, 2, 3);
    assert_eq!(w.keys_per_op(), 3);
    let op = w.next(&vec![1, 2, 3], 0);
    assert_eq!((op.kind(), op.keys()), (OpKind::MGet, 3));
    match w.next(&vec![1, 2, 3], 50) {
        Op::MSet { keys, value } => {
            assert_eq!(keys, vec![format_key(1), format_key(2), format_key(3)]);
            assert_eq!(value, vec![0x20, 0x21]);
        }
        other => panic!("{other:?}"),
    }
}

#[test]
fn kinds_have_names_and_places() {
    let names: Vec<&str> = OpKind::all().iter().map(|k| k.name()).collect();
    assert_eq!(names, vec!["GET", "SET", "DEL", "MGET", "MSET"]);
    for (i, k) in OpKind::all().iter().enumerate() {
        assert_eq!(k.index(), i);
    }
    assert_eq!(Op::Del { key: vec![1] }.kind(), OpKind::Del);
}

#[test]
fn targets_are_read() {
    let t = Resp::parse_spec("beyond=redis://127.0.0.1:6379/?a=b").unwrap();
    assert_eq!(t.name(), "beyond");
    assert_eq!(t.url(), "redis://127.0.0.1:6379/?a=b");
    assert_eq!(Resp::parse_spec("=").unwrap().url(), "");
    assert!(matches!(Resp::parse_spec("beyond"), Err(BenchError::BadTarget)));
    assert_eq!(Resp::new("a".to_string(), "b".to_string()).name(), "a");
}

#[test]
fn histograms_count_by_bucket() {
    let mut k = KindStats::new();
    assert!(new_histogram().counts().is_empty());
    for us in [1u64, 1, 2047, 2048, 2049, 60_000_000] {
        k.record(us, us + 1, 2);
    }
    assert_eq!((k.completed, k.keys), (6, 12));
    assert_eq!(
        k.service.counts(),
        vec![(1, 2), (2047, 1), (2048, 2), (59_998_208, 1)]
    );
    assert_eq!(k.response.counts()[0], (2, 2));
    assert_eq!(k.response.counts().len(), 4);
}

#[test]
fn latencies_beyond_all_bounds_are_still_completed_calls() {
    let mut k = KindStats::default();
    k.record(u64::MAX, 5, 1);
    assert_eq!(k.completed, 1);
    assert_eq!(k.response.counts(), vec![(5, 1)]);
}

#[test]
fn workers_are_merged_by_kind() {
    let mut a = WorkerStats::new();
    let mut b = WorkerStats::default();
    a.record(OpKind::Get, 10, 20, 1);
    a.record(OpKind::MSet, 30, 30, 4);
    b.record(OpKind::Get, 10, 25, 1);
    b.record_error();
    b.record_error();
    let (kinds, errors) = merge_workers(&vec![a, b]);
    assert_eq!(errors, 2);
    assert_eq!(kinds[0].completed, 2);
    assert_eq!(kinds[0].service.counts(), vec![(10, 2)]);
    assert_eq!(kinds[0].response.counts(), vec![(20, 1), (25, 1)]);
    assert_eq!((kinds[4].completed, kinds[4].keys), (1, 4));
    assert_eq!(kinds_seen(&kinds), vec![OpKind::Get, OpKind::MSet]);
    let all = overall(&kinds);
    assert_eq!((all.completed, all.keys), (3, 6));
    assert_eq!(all.service.counts(), vec![(10, 2), (30, 1)]);
}

#[test]
fn outcomes_are_recorded() {
    let mut s = WorkerStats::new();
    execute_one(&mut s, OpKind::Get, 1, Some(7), None);
    execute_one(&mut s, OpKind::Get, 1, Some(0), Some(90));
    execute_one(&mut s, OpKind::SetKey, 1, None, Some(5));
    assert_eq!(s.errors, 1);
    assert_eq!(s.by_kind[0].service.counts(), vec![(1, 1), (7, 1)]);
    assert_eq!(s.by_kind[0].response.counts(), vec![(7, 1), (90, 1)]);
    assert_eq!(s.by_kind[1].completed, 0);
}

#[test]
fn spans_are_at_least_a_microsecond() {
    assert_eq!(us(0), 1);
    assert_eq!(us(1), 1);
    assert_eq!(us(1234), 1234);
    assert_eq!(worker_seed(u64::MAX, 2), 1);
}

#[test]
fn shares_cover_the_keys_once() {
    for (n, c) in [(10u64, 3u64), (0, 4), (7, 7), (3, 8), (u64::MAX, 5)] {
        let mut at = 0;
        for w in 0..c {
            let (start, end) = populate_share(w, n, c);
            assert_eq!(start, at);
            at = end;
        }
        assert_eq!(at, n);
    }
    assert_eq!(populate_share(1, 10, 3), (3, 6));
}

#[test]
fn empty_settings_are_not_given() {
    assert_eq!(given(None), None);
    assert_eq!(given(Some(String::new())), None);
    assert_eq!(given(Some("x".to_string())), Some("x".to_string()));
    assert_eq!(env_or(Some(String::new()), "f".to_string()), "f");
    assert_eq!(env_or(Some("x".to_string()), "f".to_string()), "x");
    assert_eq!(env_or(None, "f".to_string()), "f");
}
