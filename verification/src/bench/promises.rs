//! What the benchmark's parts promise: dates, shares, keys, mixes and sums.
use vstd::multiset::Multiset;
use vstd::prelude::*;
use vstd::utf8::encode_utf8;

use crate::bench::calendar::{
    day_number, days_before_month, leap, lemma_years_follow, month_len, stamp_text, time_text,
    wrapped_i32, year_len, year_text,
};
use crate::bench::driver::{clamped_us, share_start};
use crate::bench::error::BenchError;
use crate::bench::keyspace::{key_text, keyspace_of, lemma_shards_partition, routed};
use crate::bench::metrics::{
    all_completed, all_keys, all_response, all_service, bucket, completed_of, errors_of, keys_of,
    listed, response_of, samples, seen, service_of, KindStats, WorkerStats,
};
use crate::bench::targets::first_equals;
use crate::bench::workload::{
    drawn_keys, filler, mix_of, next_op, reads, Op, OpKind, OpMix, OpView,
};
use crate::decimal::decimal_u64;
use crate::text::{fixed, lemma_fixed_len};

verus! {

/// Which years are leap years, and how long the months are.
pub proof fn lemma_calendar(y: int)
    ensures
        y % 400 == 0 ==> leap(y),
        y % 100 == 0 && y % 400 != 0 ==> !leap(y),
        y % 4 == 0 && y % 100 != 0 ==> leap(y),
        y % 4 != 0 ==> !leap(y),
        leap(y) ==> year_len(y) == 366 && month_len(y, 2) == 29,
        !leap(y) ==> year_len(y) == 365 && month_len(y, 2) == 28,
        month_len(y, 1) == 31 && month_len(y, 3) == 31 && month_len(y, 5) == 31 && month_len(y, 7)
            == 31,
        month_len(y, 8) == 31 && month_len(y, 10) == 31 && month_len(y, 12) == 31,
        month_len(y, 4) == 30 && month_len(y, 6) == 30 && month_len(y, 9) == 30 && month_len(y, 11)
            == 30,
        days_before_month(y, 1) == 0,
        days_before_month(y, 13) == year_len(y),
{
    reveal_with_fuel(days_before_month, 14);
}

/// Days are counted one by one from the first of January 1970: the day after a day has the next
/// number, within a month, over the end of a month and over the end of a year.
pub proof fn lemma_days_follow(y: int, m: int, d: int)
    requires
        1 <= m <= 12,
        1 <= d <= month_len(y, m),
    ensures
        day_number(1970, 1, 1) == 0,
        d < month_len(y, m) ==> day_number(y, m, d + 1) == day_number(y, m, d) + 1,
        d == month_len(y, m) && m < 12 ==> day_number(y, m + 1, 1) == day_number(y, m, d) + 1,
        d == month_len(y, m) && m == 12 ==> day_number(y + 1, 1, 1) == day_number(y, m, d) + 1,
{
    lemma_years_follow(y);
    lemma_calendar(y);
    if m == 12 {
        assert(days_before_month(y, 13) == days_before_month(y, 12) + month_len(y, 12));
    }
}

/// The time of day is hours, minutes and seconds of two digits each.
pub proof fn lemma_time_texts(hours: nat, minutes: nat, seconds: nat)
    requires
        minutes < 60,
        seconds < 60,
    ensures
        time_text((hours * 3600 + minutes * 60 + seconds) as int) == fixed(hours, 10, 2) + ":"@
            + fixed(minutes, 10, 2) + ":"@ + fixed(seconds, 10, 2),
{
    let s = (hours * 3600 + minutes * 60 + seconds) as int;
    assert(s / 3600 == hours);
    assert((s / 60) % 60 == minutes) by {
        assert(s / 60 == hours * 60 + minutes);
    }
    assert(s % 60 == seconds);
}

/// A timestamp is the date and the time of day with a `T` between them and a `Z` behind them; a year
/// has four digits.
pub proof fn lemma_stamp_texts(year: i32, month: u32, day: u32, sec_of_day: int)
    requires
        0 <= year < 10_000,
        0 <= sec_of_day < 86_400,
    ensures
        ({
            let text = stamp_text((year, month, day), sec_of_day);
            &&& text.len() == 20
            &&& text.subrange(0, 4) == fixed(year as nat, 10, 4)
            &&& text[4] == '-' && text[7] == '-' && text[10] == 'T' && text[19] == 'Z'
            &&& text.subrange(5, 7) == fixed(month as nat, 10, 2)
            &&& text.subrange(8, 10) == fixed(day as nat, 10, 2)
            &&& text.subrange(11, 19) == time_text(sec_of_day)
        }),
{
    lemma_fixed_len(year as nat, 10, 4);
    lemma_fixed_len(month as nat, 10, 2);
    lemma_fixed_len(day as nat, 10, 2);
    lemma_fixed_len((sec_of_day / 3600) as nat, 10, 2);
    lemma_fixed_len(((sec_of_day / 60) % 60) as nat, 10, 2);
    lemma_fixed_len((sec_of_day % 60) as nat, 10, 2);
    reveal_strlit("-");
    reveal_strlit(":");
    reveal_strlit("T");
    reveal_strlit("Z");
    let text = stamp_text((year, month, day), sec_of_day);
    assert(year_text(year as int) == fixed(year as nat, 10, 4));
    assert(time_text(sec_of_day).len() == 8);
    assert(text.subrange(0, 4) =~= fixed(year as nat, 10, 4));
    assert(text.subrange(5, 7) =~= fixed(month as nat, 10, 2));
    assert(text.subrange(8, 10) =~= fixed(day as nat, 10, 2));
    assert(text.subrange(11, 19) =~= time_text(sec_of_day));
}

/// A year that fits in 32 bits is itself.
pub proof fn lemma_years_that_fit(y: int)
    ensures
        -0x8000_0000 <= y < 0x8000_0000 ==> wrapped_i32(y) == y,
        wrapped_i32(y + 0x1_0000_0000) == wrapped_i32(y),
{
}

/// A latency counts with at least one microsecond.
pub proof fn lemma_clamped(micros: u128)
    ensures
        micros == 0 ==> clamped_us(micros) == 1,
        0 < micros < 0x1_0000_0000_0000_0000 ==> clamped_us(micros) == micros,
{
}

/// The workers' shares are even: none is larger than another by more than one key.
pub proof fn lemma_shares_even(worker: int, n: int, concurrency: int)
    requires
        concurrency > 0,
        n >= 0,
        worker >= 0,
    ensures
        ({
            let size = share_start(worker + 1, n, concurrency) - share_start(
                worker,
                n,
                concurrency,
            );
            size == n / concurrency || size == n / concurrency + 1
        }),
{
    let c = concurrency;
    let a = (worker * n) / c;
    let b = ((worker + 1) * n) / c;
    let q = n / c;
    vstd::arithmetic::div_mod::lemma_fundamental_div_mod(worker * n, c);
    vstd::arithmetic::div_mod::lemma_fundamental_div_mod((worker + 1) * n, c);
    vstd::arithmetic::div_mod::lemma_fundamental_div_mod(n, c);
    vstd::arithmetic::div_mod::lemma_mod_bound(worker * n, c);
    vstd::arithmetic::div_mod::lemma_mod_bound((worker + 1) * n, c);
    vstd::arithmetic::div_mod::lemma_mod_bound(n, c);
    let (x, y, z) = ((worker * n) % c, ((worker + 1) * n) % c, n % c);
    assert((worker + 1) * n == worker * n + n) by (nonlinear_arith);
    assert(c * b + y == c * a + x + c * q + z);
    assert(c * (b - a - q) == x + z - y) by (nonlinear_arith)
        requires
            c * b + y == c * a + x + c * q + z,
    ;
    let d = b - a - q;
    assert(d == 0 || d == 1) by (nonlinear_arith)
        requires
            c * d == x + z - y,
            0 <= x < c,
            0 <= y < c,
            0 <= z < c,
            c > 0,
    ;
}

/// A key is `k:` and its number in sixteen hexadecimal digits.
pub proof fn lemma_key_texts(idx: u64)
    ensures
        key_text(idx).len() == 18,
        key_text(idx)[0] == 'k' && key_text(idx)[1] == ':',
        key_text(idx).skip(2) == fixed(idx as nat, 16, 16),
{
    reveal_strlit("k:");
    lemma_fixed_len(idx as nat, 16, 16);
    assert(key_text(idx).skip(2) =~= fixed(idx as nat, 16, 16));
}

/// A shard's keys are the ascending list of the key numbers below the total whose hash, modulo the
/// number of shards, is the shard's; all of them where there is one shard. What cannot be had is
/// refused: no keys, no shards, a shard that is not there, a shard without a key.
pub proof fn lemma_shard_keys(total: u64, hashes: Seq<u64>, shard: usize, shards: usize)
    requires
        hashes.len() == total,
    ensures
        ({
            let r = keyspace_of(total, hashes, shard, shards);
            let fine = total > 0 && shards > 0 && shard < shards;
            &&& total == 0 ==> r == Err::<Seq<u64>, BenchError>(BenchError::NoKeys)
            &&& total > 0 && shards == 0 ==> r == Err::<Seq<u64>, BenchError>(BenchError::NoShards)
            &&& total > 0 && 0 < shards <= shard ==> r == Err::<Seq<u64>, BenchError>(
                BenchError::ShardIndexTooHigh,
            )
            &&& fine && shards == 1 ==> (r matches Ok(v) && v.len() == total && forall|i: int|
                0 <= i < total ==> #[trigger] v[i] == i)
            &&& fine && shards > 1 ==> (r is Ok <==> exists|i: int|
                0 <= i < total && (#[trigger] hashes[i] as usize) % shards == shard)
            &&& fine && shards > 1 && r is Err ==> r == Err::<Seq<u64>, BenchError>(
                BenchError::EmptyShard,
            )
            &&& fine && shards > 1 ==> (r matches Ok(v) ==> {
                &&& forall|i: int|
                    0 <= i < total ==> (v.contains(i as u64) <==> (#[trigger] hashes[i] as usize)
                        % shards == shard)
                &&& forall|a: int| 0 <= a < v.len() ==> #[trigger] v[a] < total
                &&& forall|a: int, b: int|
                    0 <= a < b < v.len() ==> #[trigger] v[a] < #[trigger] v[b]
            })
        }),
{
    if total > 0 && shard < shards && shards > 1 {
        let v = routed(hashes, total as int, shard, shards);
        lemma_routed_ascends(hashes, total as int, shard, shards);
        assert forall|i: int| 0 <= i < total implies (v.contains(i as u64) <==> (
        #[trigger] hashes[i] as usize) % shards == shard) by {
            lemma_shards_partition(hashes, total as int, shards, i, shard);
        }
        if v.len() > 0 {
            let i = v[0] as int;
            assert(v.contains(i as u64));
            assert((hashes[i] as usize) % shards == shard);
        }
    }
}

proof fn lemma_routed_ascends(hashes: Seq<u64>, n: int, shard: usize, shards: usize)
    requires
        0 <= n <= hashes.len(),
        n <= u64::MAX,
    ensures
        ({
            let v = routed(hashes, n, shard, shards);
            &&& forall|a: int| 0 <= a < v.len() ==> #[trigger] v[a] < n
            &&& forall|a: int, b: int|
                0 <= a < b < v.len() ==> #[trigger] v[a] < #[trigger] v[b]
        }),
    decreases n,
{
    if n > 0 {
        lemma_routed_ascends(hashes, n - 1, shard, shards);
        let head = routed(hashes, n - 1, shard, shards);
        let v = routed(hashes, n, shard, shards);
        assert(v == head || v == head.push((n - 1) as u64));
        assert forall|a: int| 0 <= a < v.len() implies #[trigger] v[a] < n by {
            if a < head.len() {
                assert(v[a] == head[a]);
            }
        }
        assert forall|a: int, b: int| 0 <= a < b < v.len() implies #[trigger] v[a]
            < #[trigger] v[b] by {
            assert(v[a] == head[a]);
            if b < head.len() {
                assert(v[b] == head[b]);
            }
        }
    }
}

/// A latency is counted in a bucket no higher than itself, and lower by less than one part in 1024;
/// below 2048 exactly. Doubling a latency from there on doubles its bucket.
pub proof fn lemma_buckets(v: nat)
    ensures
        v < 2048 ==> bucket(v) == v,
        bucket(v) <= v,
        v >= 2048 ==> (v - bucket(v)) * 1024 < v,
        v >= 1024 ==> bucket(2 * v) == 2 * bucket(v),
    decreases v,
{
    if v >= 2048 {
        lemma_buckets(v / 2);
        lemma_bucket_gap(v);
        let w = choose|w: nat| #[trigger] wide(v, w);
        assert(v - bucket(v) + 1 <= w);
    }
    assert((2 * v) / 2 == v);
}

/// The width of a bucket: the gap below a latency is less than a power of two that, 1024 times over,
/// is no more than the latency.
proof fn lemma_bucket_gap(v: nat)
    ensures
        exists|w: nat| #[trigger] wide(v, w),
    decreases v,
{
    if v >= 2048 {
        lemma_bucket_gap(v / 2);
        let w = choose|w: nat| #[trigger] wide(v / 2, w);
        assert(wide(v, 2 * w));
    } else {
        assert(wide(v, 1));
    }
}

spec fn wide(v: nat, w: nat) -> bool {
    &&& w >= 1
    &&& bucket(v) <= v
    &&& v - bucket(v) < w
    &&& v >= 1024 ==> w * 1024 <= v
}

/// Counting listed buckets goes pair by pair.
pub proof fn lemma_listed(pairs: Seq<(u64, u64)>, p: (u64, u64), b: nat)
    ensures
        listed(seq![], b) == 0,
        listed(pairs.push(p), b) == listed(pairs, b) + (if p.0 == b {
            p.1 as nat
        } else {
            0
        }),
{
    assert(pairs.push(p).drop_last() =~= pairs);
}

/// The sums over one worker are its own numbers.
pub proof fn lemma_one_worker(w: WorkerStats, kind: int)
    ensures
        completed_of(seq![w], kind, 1) == w.by_kind@[kind].completed,
        keys_of(seq![w], kind, 1) == w.by_kind@[kind].keys,
        errors_of(seq![w], 1) == w.errors,
        service_of(seq![w], kind, 1) == samples(w.by_kind@[kind].service),
        response_of(seq![w], kind, 1) == samples(w.by_kind@[kind].response),
{
    reveal_with_fuel(completed_of, 2);
    reveal_with_fuel(keys_of, 2);
    reveal_with_fuel(errors_of, 2);
    reveal_with_fuel(service_of, 2);
    reveal_with_fuel(response_of, 2);
    assert(Multiset::<nat>::empty().add(samples(w.by_kind@[kind].service)) =~= samples(
        w.by_kind@[kind].service,
    ));
    assert(Multiset::<nat>::empty().add(samples(w.by_kind@[kind].response)) =~= samples(
        w.by_kind@[kind].response,
    ));
}

/// The totals are those of the five kinds together.
pub proof fn lemma_five_kinds(kinds: Seq<KindStats>)
    requires
        kinds.len() == 5,
    ensures
        all_completed(kinds, 5) == kinds[0].completed + kinds[1].completed + kinds[2].completed
            + kinds[3].completed + kinds[4].completed,
        all_keys(kinds, 5) == kinds[0].keys + kinds[1].keys + kinds[2].keys + kinds[3].keys
            + kinds[4].keys,
        forall|v: nat| #[trigger]
            all_service(kinds, 5).count(v) == samples(kinds[0].service).count(v) + samples(
                kinds[1].service,
            ).count(v) + samples(kinds[2].service).count(v) + samples(kinds[3].service).count(v)
                + samples(kinds[4].service).count(v),
        forall|v: nat| #[trigger]
            all_response(kinds, 5).count(v) == samples(kinds[0].response).count(v) + samples(
                kinds[1].response,
            ).count(v) + samples(kinds[2].response).count(v) + samples(kinds[3].response).count(v)
                + samples(kinds[4].response).count(v),
{
    reveal_with_fuel(all_completed, 6);
    reveal_with_fuel(all_keys, 6);
    reveal_with_fuel(all_service, 6);
    reveal_with_fuel(all_response, 6);
}

/// The kinds that are reported are those of which an op completed, in order.
pub proof fn lemma_kinds_seen(kinds: Seq<KindStats>, n: int, i: int)
    requires
        0 <= n <= kinds.len(),
    ensures
        seen(kinds, n).contains(i) <==> 0 <= i < n && kinds[i].completed > 0,
        forall|a: int, b: int|
            0 <= a < b < seen(kinds, n).len() ==> #[trigger] seen(kinds, n)[a] < #[trigger] seen(
                kinds,
                n,
            )[b],
        forall|a: int| 0 <= a < seen(kinds, n).len() ==> 0 <= #[trigger] seen(kinds, n)[a] < n,
    decreases n,
{
    if n > 0 {
        lemma_kinds_seen(kinds, n - 1, i);
        let head = seen(kinds, n - 1);
        let all = seen(kinds, n);
        if kinds[n - 1].completed > 0 {
            assert(all[head.len() as int] == n - 1);
            if head.contains(i) {
                let a = choose|a: int| 0 <= a < head.len() && head[a] == i;
                assert(all[a] == i);
            }
        }
    }
}

/// The mixes by name.
pub proof fn lemma_mixes(raw: Seq<u8>, s: Seq<u8>)
    ensures
        mix_of(encode_utf8("get"@)) == Ok::<OpMix, BenchError>(OpMix::GetOnly),
        mix_of(encode_utf8("get-only"@)) == Ok::<OpMix, BenchError>(OpMix::GetOnly),
        mix_of(encode_utf8("set"@)) == Ok::<OpMix, BenchError>(OpMix::SetOnly),
        mix_of(encode_utf8("set-only"@)) == Ok::<OpMix, BenchError>(OpMix::SetOnly),
        mix_of(encode_utf8("mixed:"@) + raw) == match decimal_u64(raw) {
            None => Err(BenchError::BadPercentage),
            Some(n) => if n <= 100 {
                Ok(OpMix::Mixed { read_pct: n as u8 })
            } else if n <= 255 {
                Err(BenchError::PercentageTooHigh)
            } else {
                Err(BenchError::BadPercentage)
            },
        },
        s != encode_utf8("get"@) && s != encode_utf8("get-only"@) && s != encode_utf8("set"@) && s
            != encode_utf8("set-only"@) && (forall|rest: Seq<u8>|
            s != #[trigger] (encode_utf8("mixed:"@) + rest)) ==> mix_of(s) == Err::<
            OpMix,
            BenchError,
        >(BenchError::UnknownMix),
{
    reveal_strlit("get");
    reveal_strlit("get-only");
    reveal_strlit("set");
    reveal_strlit("set-only");
    reveal_strlit("mixed:");
    vstd::utf8::is_ascii_chars_encode_utf8("get"@);
    vstd::utf8::is_ascii_chars_encode_utf8("get-only"@);
    vstd::utf8::is_ascii_chars_encode_utf8("set"@);
    vstd::utf8::is_ascii_chars_encode_utf8("set-only"@);
    vstd::utf8::is_ascii_chars_encode_utf8("mixed:"@);
    let m = encode_utf8("mixed:"@);
    let whole = m + raw;
    assert(whole[0] == 'm' as u8);
    assert(encode_utf8("get"@)[0] == 'g' as u8);
    assert(encode_utf8("get-only"@)[0] == 'g' as u8);
    assert(encode_utf8("set"@)[0] == 's' as u8);
    assert(encode_utf8("set-only"@)[0] == 's' as u8);
    assert(whole.take(m.len() as int) =~= m);
    assert(whole.skip(m.len() as int) =~= raw);
    if s.len() >= m.len() && s.take(m.len() as int) == m {
        assert(s =~= m + s.skip(m.len() as int));
    }
}

/// The value that is written: the bytes from 32 on, counting up and round.
pub proof fn lemma_filler(size: nat, i: int)
    ensures
        filler(size).len() == size,
        0 <= i < size && i < 224 ==> filler(size)[i] == 32 + i,
        224 <= i < size && i < 480 ==> filler(size)[i] == i - 224,
        0 <= i && i + 256 < size ==> filler(size)[i + 256] == filler(size)[i],
{
}

/// Of a hundred rolls, as many read as the percentage says; the pure mixes read always, or never.
pub proof fn lemma_rolls(read_pct: u8, roll: u8)
    requires
        read_pct <= 100,
    ensures
        Set::new(
            |r: int| 0 <= r < 100 && reads(OpMix::Mixed { read_pct }, r as u8),
        ).len() == read_pct,
        reads(OpMix::GetOnly, roll),
        !reads(OpMix::SetOnly, roll),
{
    let below = vstd::set_lib::set_int_range(0, read_pct as int);
    vstd::set_lib::lemma_int_range(0, read_pct as int);
    assert(Set::new(|r: int| 0 <= r < 100 && reads(OpMix::Mixed { read_pct }, r as u8)) =~= below);
}

/// An op: one key is read or written by itself, several together; a write writes the filler. The keys
/// are those at the positions that were drawn.
pub proof fn lemma_ops(
    indices: Seq<u64>,
    positions: Seq<u64>,
    keys: Seq<Seq<u8>>,
    batch: usize,
    value: Seq<u8>,
    i: int,
)
    ensures
        batch <= 1 ==> next_op(keys, batch, value, true) == (OpView::Get { key: keys[0] }),
        batch <= 1 ==> next_op(keys, batch, value, false) == (OpView::SetKey {
            key: keys[0],
            value,
        }),
        batch > 1 ==> next_op(keys, batch, value, true) == (OpView::MGet { keys }),
        batch > 1 ==> next_op(keys, batch, value, false) == (OpView::MSet { keys, value }),
        drawn_keys(indices, positions).len() == positions.len(),
        0 <= i < positions.len() ==> drawn_keys(indices, positions)[i] == encode_utf8(
            key_text(indices[positions[i] as int]),
        ),
{
}

/// The kinds stand in this order in every list of kinds.
pub proof fn lemma_kind_places()
    ensures
        OpKind::Get.place() == 0,
        OpKind::SetKey.place() == 1,
        OpKind::Del.place() == 2,
        OpKind::MGet.place() == 3,
        OpKind::MSet.place() == 4,
{
}

/// What an op is said to be is what it is.
pub proof fn lemma_op_views(op: Op)
    ensures
        match op {
            Op::Get { key } => op@ == (OpView::Get { key: key@ }),
            Op::SetKey { key, value } => op@ == (OpView::SetKey { key: key@, value: value@ }),
            Op::Del { key } => op@ == (OpView::Del { key: key@ }),
            Op::MGet { keys } => op@ is MGet && op@->MGet_keys.len() == keys@.len() && forall|
                i: int,
            |
                0 <= i < keys@.len() ==> op@->MGet_keys[i] == (#[trigger] keys@[i])@,
            Op::MSet { keys, value } => op@ is MSet && op@->MSet_value == value@
                && op@->MSet_keys.len() == keys@.len() && forall|i: int|
                0 <= i < keys@.len() ==> op@->MSet_keys[i] == (#[trigger] keys@[i])@,
        },
{
}

/// A completed op counts once, with its keys, under its own kind; its service time and its response
/// time are each counted once in their buckets, unless they are above a minute. No other kind changes.
pub proof fn lemma_op_recorded(
    before: WorkerStats,
    after: WorkerStats,
    kind: OpKind,
    service_us: u64,
    response_us: u64,
    keys: u64,
    i: int,
)
    requires
        before.wf(),
        after.recorded(before, kind, service_us, response_us, keys),
    ensures
        ({
            let at = kind.place();
            let (a, b) = (after.by_kind@[at], before.by_kind@[at]);
            &&& a.completed == b.completed + 1 && a.keys == b.keys + keys
            &&& service_us <= 60_000_000 ==> samples(a.service) == samples(b.service).insert(
                bucket(service_us as nat),
            )
            &&& response_us <= 60_000_000 ==> samples(a.response) == samples(b.response).insert(
                bucket(response_us as nat),
            )
            &&& after.errors == before.errors
            &&& 0 <= i < 5 && i != at ==> after.by_kind@[i] == before.by_kind@[i]
        }),
{
}

/// A failed op counts as an error and under no kind.
pub proof fn lemma_error_recorded(before: WorkerStats, after: WorkerStats, i: int)
    requires
        after.failed(before),
    ensures
        after.errors == before.errors + 1,
        after.by_kind@[i] == before.by_kind@[i],
{
}

/// Merging adds the counts, the keys and the latencies of one to those of the other.
pub proof fn lemma_kinds_merged(before: KindStats, other: KindStats, after: KindStats, v: nat)
    requires
        after.merged(before, other),
    ensures
        after.completed == before.completed + other.completed,
        after.keys == before.keys + other.keys,
        samples(after.service).count(v) == samples(before.service).count(v) + samples(
            other.service,
        ).count(v),
        samples(after.response).count(v) == samples(before.response).count(v) + samples(
            other.response,
        ).count(v),
{
}

/// A target is its name up to the first `=`, and its url behind it.
pub proof fn lemma_target_parts(spec: Seq<char>, at: int)
    requires
        first_equals(spec, at),
    ensures
        spec.take(at) + seq!['='] + spec.skip(at + 1) == spec,
        !spec.take(at).contains('='),
{
    assert(spec.take(at) + seq!['='] + spec.skip(at + 1) =~= spec);
    if spec.take(at).contains('=') {
        let i = choose|i: int| 0 <= i < at && spec.take(at)[i] == '=';
        assert(spec[i] == '=');
    }
}

} // verus!
