//! What the store answers, in terms of what its index and its cache hold.
use vstd::prelude::*;
use vstd::utf8::{encode_utf8, is_ascii_chars_encode_utf8};

use crate::bytes::{before, lemma_before_irreflexive};
use crate::codec::{le64, lemma_le64};
use crate::engine::cache::{inserted, CacheView};
use crate::engine::cache_policy::lemma_cache_insert_keeps;
use crate::engine::glob::glob;
use crate::engine::log::index::{
    is_page, page_size, IndexEntry, IndexView, NsIndex,
};
use crate::engine::log::read::json_valid;
use crate::engine::store::{
    answered, cache_key_of, cache_with_pairs, cache_with_reads, capped_ttl, cursor_position,
    database_name, expiry_of_ttl, get_step, name_byte, pattern_test, read_data, read_for, scans,
    set_started, ttl_result, valid_name, ShardStore, StepView,
};
use crate::engine::log::write::PendingPut;
use crate::engine::types::TtlResult;
use crate::text::decimal;

verus! {

/// An index has under a key what was last put there, and what is taken out is gone. Other keys are
/// not touched.
pub proof fn lemma_index_changes(
    idx: IndexView,
    k: Seq<u8>,
    q: Seq<u8>,
    entry: IndexEntry,
    expires_at_ms: Option<u64>,
    hash: Option<[u8; 16]>,
)
    ensures
        ({
            let put = idx.insert(k, entry, expires_at_ms);
            &&& put.map.dom().contains(k) && put.map[k] == entry
            &&& put.ttl.dom().contains(k) <==> expires_at_ms is Some
            &&& expires_at_ms matches Some(ms) ==> put.ttl[k] == ms
            &&& put.valsep == idx.valsep
        }),
        ({
            let out = idx.remove(k);
            &&& !out.map.dom().contains(k) && !out.ttl.dom().contains(k)
            &&& !out.valsep.dom().contains(k)
        }),
        ({
            let timed = idx.set_ttl(k, expires_at_ms);
            &&& timed.map == idx.map && timed.valsep == idx.valsep
            &&& timed.ttl.dom().contains(k) <==> expires_at_ms is Some
            &&& expires_at_ms matches Some(ms) ==> timed.ttl[k] == ms
        }),
        ({
            let sep = idx.set_valsep(k, hash);
            &&& sep.map == idx.map && sep.ttl == idx.ttl
            &&& sep.valsep.dom().contains(k) <==> hash is Some
            &&& hash matches Some(h) ==> sep.valsep[k] == h
        }),
        q != k ==> same_key(idx, idx.insert(k, entry, expires_at_ms), q) && same_key(
            idx,
            idx.remove(k),
            q,
        ) && same_key(idx, idx.set_ttl(k, expires_at_ms), q) && same_key(
            idx,
            idx.set_valsep(k, hash),
            q,
        ),
{
}

/// The two say the same of a key.
pub open spec fn same_key(a: IndexView, b: IndexView, q: Seq<u8>) -> bool {
    &&& a.map.dom().contains(q) <==> b.map.dom().contains(q)
    &&& a.map.dom().contains(q) ==> a.map[q] == b.map[q]
    &&& a.ttl.dom().contains(q) <==> b.ttl.dom().contains(q)
    &&& a.ttl.dom().contains(q) ==> a.ttl[q] == b.ttl[q]
    &&& a.valsep.dom().contains(q) <==> b.valsep.dom().contains(q)
    &&& a.valsep.dom().contains(q) ==> a.valsep[q] == b.valsep[q]
}

/// What a lookup gives: what is there, and nothing where nothing is.
pub proof fn lemma_index_lookups(idx: IndexView, k: Seq<u8>, now: u64)
    ensures
        idx.get(k) is Some <==> idx.map.dom().contains(k),
        idx.get(k) matches Some(e) ==> e == idx.map[k],
        idx.ttl_of(k) is Some <==> idx.ttl.dom().contains(k),
        idx.ttl_of(k) matches Some(ms) ==> ms == idx.ttl[k],
        idx.valsep_of(k) is Some <==> idx.valsep.dom().contains(k),
        idx.valsep_of(k) matches Some(h) ==> h == idx.valsep[k],
        idx.expired(k, now) <==> idx.ttl.dom().contains(k) && idx.ttl[k] <= now,
        idx.live(k, now) <==> idx.map.dom().contains(k) && (idx.ttl.dom().contains(k)
            ==> idx.ttl[k] > now),
{
}

/// Once a key's expiry has come it stays expired.
pub proof fn lemma_expiry_is_final(idx: IndexView, k: Seq<u8>, now: u64, later: u64)
    requires
        now <= later,
    ensures
        idx.live(k, later) ==> idx.live(k, now),
        idx.expired(k, now) ==> idx.expired(k, later),
{
}

/// What `PTTL` and `TTL` answer: a key that is not there, or whose expiry has come, is not found; a
/// key without an expiry has none; else what is left, in milliseconds, or in whole seconds.
pub proof fn lemma_ttl_answers(idx: IndexView, k: Seq<u8>, now: u64)
    ensures
        ({
            let there = idx.map.dom().contains(k) && (idx.ttl.dom().contains(k) ==> idx.ttl[k]
                > now);
            let ms = ttl_result(idx, k, now, 1);
            let secs = ttl_result(idx, k, now, 1000);
            &&& ms == TtlResult::NotFound <==> !there
            &&& secs == TtlResult::NotFound <==> !there
            &&& ms == TtlResult::NoExpiry <==> there && !idx.ttl.dom().contains(k)
            &&& secs == TtlResult::NoExpiry <==> there && !idx.ttl.dom().contains(k)
            &&& there && idx.ttl.dom().contains(k) ==> {
                let left = idx.ttl[k] - now;
                &&& ms matches TtlResult::Remaining(n) && n == left
                &&& secs matches TtlResult::Remaining(n) && n * 1000 <= left < n * 1000 + 1000
            }
        }),
{
}

/// A lifetime that begins at one time runs out as time goes on: later what is left is the lifetime
/// less the time that has passed, and in the end the key is gone.
pub proof fn lemma_lifetime_runs_out(idx: IndexView, k: Seq<u8>, ttl_ms: u128, begun: u64, now: u64)
    requires
        idx.map.dom().contains(k),
        begun + ttl_ms <= u64::MAX,
        begun <= now,
    ensures
        ({
            let timed = idx.set_ttl(k, expiry_of_ttl(Some(ttl_ms), begun));
            let passed = now - begun;
            &&& passed < ttl_ms ==> timed.live(k, now)
            &&& passed < ttl_ms ==> (ttl_result(timed, k, now, 1) matches TtlResult::Remaining(n)
                && n == ttl_ms - passed)
            &&& passed >= ttl_ms ==> !timed.live(k, now)
            &&& passed >= ttl_ms ==> ttl_result(timed, k, now, 1) == TtlResult::NotFound
        }),
        expiry_of_ttl(None, begun) is None,
        ({
            let kept = idx.set_ttl(k, None);
            kept.live(k, now) && ttl_result(kept, k, now, 1) == TtlResult::NoExpiry
        }),
{
}

/// A lifetime longer than 64 bits of milliseconds counts as the longest that they hold.
pub proof fn lemma_lifetime_is_capped(ttl_ms: u128)
    ensures
        ttl_ms < 0x1_0000_0000_0000_0000 ==> capped_ttl(ttl_ms) == ttl_ms,
        ttl_ms >= 0x1_0000_0000_0000_0000 ==> capped_ttl(ttl_ms) == 0xffff_ffff_ffff_ffffu64,
{
}

/// The first step of a read: an entry of the cache whose expiry has not come is the answer. Else the
/// index decides: a key that it lacks is absent, one whose expiry has come is expired, and of any
/// other the record is to be read.
pub proof fn lemma_get_answers(cache: CacheView, idx: IndexView, ck: Seq<u8>, k: Seq<u8>, now: u64)
    ensures
        ({
            let step = get_step(cache, idx, ck, k, now).1;
            let e = cache.entries[ck];
            let cached = cache.entries.dom().contains(ck) && (e.expires_at_ms matches Some(ms)
                ==> ms > now);
            &&& cached ==> (step matches StepView::Hit(d) && d.value == e.value && d.metadata
                == e.metadata && d.revision == e.revision && (d.expires_in_ms is Some
                <==> e.expires_at_ms is Some) && (e.expires_at_ms matches Some(ms) ==> now
                + d.expires_in_ms->0 == ms))
            &&& !cached && !idx.map.dom().contains(k) ==> step == StepView::Absent
            &&& !cached && idx.map.dom().contains(k) && idx.ttl.dom().contains(k) && idx.ttl[k]
                <= now ==> step == StepView::Expired
            &&& !cached && idx.map.dom().contains(k) && (idx.ttl.dom().contains(k) ==> idx.ttl[k]
                > now) ==> (step matches StepView::Read { entry, expires_at_ms } && entry
                == idx.map[k] && (expires_at_ms is Some <==> idx.ttl.dom().contains(k)) && (
            idx.ttl.dom().contains(k) ==> expires_at_ms->0 == idx.ttl[k]))
        }),
        get_step(cache, idx, ck, k, now).0 == cache.read(ck, now).0,
{
}

/// What a read answers in the end: the cache's entry as it is; else the record's value with its
/// metadata where that is JSON text, its revision, and what is left of its life; and nothing where the
/// key is absent or expired, or no record was found.
pub proof fn lemma_read_answers(
    step: StepView,
    record: Option<(Seq<u8>, Seq<u8>)>,
    now: u64,
)
    ensures
        match step {
            StepView::Hit(d) => answered(step, record, now) == Some(d),
            StepView::Absent => answered(step, record, now) is None,
            StepView::Expired => answered(step, record, now) is None,
            StepView::Read { entry, expires_at_ms } => match record {
                None => answered(step, record, now) is None,
                Some((value, meta)) => answered(step, record, now) matches Some(d) && d.value
                    == value && d.revision == entry.tstamp_ms && (d.metadata is Some <==> meta.len()
                    > 0 && json_valid(meta)) && (d.metadata matches Some(m) ==> m == meta) && (
                d.expires_in_ms is Some <==> expires_at_ms is Some) && (
                expires_at_ms matches Some(ms) ==> if ms > now {
                    now + d.expires_in_ms->0 == ms
                } else {
                    d.expires_in_ms->0 == 0
                }),
            },
        },
{
}

/// What a read answers whose record was read at once.
pub proof fn lemma_read_data(
    value: Seq<u8>,
    meta: Seq<u8>,
    expires_at_ms: Option<u64>,
    revision: u64,
    now: u64,
)
    ensures
        ({
            let d = read_data(value, meta, expires_at_ms, revision, now);
            &&& d.value == value && d.revision == revision
            &&& d.metadata is Some <==> meta.len() > 0 && json_valid(meta)
            &&& d.metadata matches Some(m) ==> m == meta
            &&& d.expires_in_ms is Some <==> expires_at_ms is Some
            &&& expires_at_ms matches Some(ms) ==> if ms > now {
                now + d.expires_in_ms->0 == ms
            } else {
                d.expires_in_ms->0 == 0
            }
        }),
{
}

/// Behind a batch of writes the cache has, of each key that it holds, the value and the revision of
/// the last pair with that key, and of other keys what it had.
pub proof fn lemma_batch_in_cache(
    cache: CacheView,
    ns: Seq<u8>,
    pairs: Seq<(Vec<u8>, Vec<u8>)>,
    revisions: Seq<u64>,
    q: Seq<u8>,
)
    requires
        cache.entries.dom().finite(),
        cache_with_pairs(cache, ns, pairs, revisions).entries.dom().contains(q),
    ensures
        ({
            let e = cache_with_pairs(cache, ns, pairs, revisions).entries[q];
            &&& forall|i: int|
                0 <= i < pairs.len() && ns + seq![0u8] + (#[trigger] pairs[i]).0@ == q && (forall|
                    j: int,
                |
                    i < j < pairs.len() ==> ns + seq![0u8] + (#[trigger] pairs[j]).0@ != q)
                    ==> e.value == pairs[i].1@ && e.revision == revisions[i] && e.expires_at_ms
                    is None && e.metadata is None
            &&& (forall|i: int|
                0 <= i < pairs.len() ==> ns + seq![0u8] + (#[trigger] pairs[i]).0@ != q)
                ==> cache.entries.dom().contains(q) && e.value == cache.entries[q].value
                && e.revision == cache.entries[q].revision && e.expires_at_ms
                == cache.entries[q].expires_at_ms && e.metadata == cache.entries[q].metadata
        }),
    decreases pairs.len(),
{
    if pairs.len() > 0 {
        let n = pairs.len() - 1;
        let head = pairs.drop_last();
        let was = cache_with_pairs(cache, ns, head, revisions);
        lemma_cache_stays_finite(cache, ns, head, revisions);
        let ck = cache_key_of(ns, pairs.last().0@);
        lemma_cache_insert_keeps(was, ck, pairs.last().1@, None, None, 0, revisions[n], q);
        assert(ck == ns + seq![0u8] + pairs[n].0@);
        if q != ck {
            lemma_batch_in_cache(cache, ns, head, revisions, q);
            assert forall|i: int| 0 <= i < head.len() implies head[i] == #[trigger] pairs[i] by {}
            let e = cache_with_pairs(cache, ns, pairs, revisions).entries[q];
            assert forall|i: int|
                0 <= i < pairs.len() && ns + seq![0u8] + (#[trigger] pairs[i]).0@ == q && (forall|
                    j: int,
                |
                    i < j < pairs.len() ==> ns + seq![0u8] + (#[trigger] pairs[j]).0@
                        != q) implies e.value == pairs[i].1@ && e.revision == revisions[i]
                && e.expires_at_ms is None && e.metadata is None by {
                assert(i < n);
                assert(head[i] == pairs[i]);
                assert forall|j: int| i < j < head.len() implies ns + seq![0u8] + (
                #[trigger] head[j]).0@ != q by {
                    assert(pairs[j] == head[j]);
                }
            }
        }
    }
}

proof fn lemma_cache_stays_finite(
    cache: CacheView,
    ns: Seq<u8>,
    pairs: Seq<(Vec<u8>, Vec<u8>)>,
    revisions: Seq<u64>,
)
    requires
        cache.entries.dom().finite(),
    ensures
        cache_with_pairs(cache, ns, pairs, revisions).entries.dom().finite(),
    decreases pairs.len(),
{
    if pairs.len() > 0 {
        let n = pairs.len() - 1;
        let head = pairs.drop_last();
        let was = cache_with_pairs(cache, ns, head, revisions);
        lemma_cache_stays_finite(cache, ns, head, revisions);
        let ck = cache_key_of(ns, pairs.last().0@);
        let now = inserted(was, ck, pairs.last().1@, None, None, 0, revisions[n]);
        assert forall|q: Seq<u8>| #[trigger] now.entries.dom().contains(q) implies was.entries.dom().insert(
            ck,
        ).contains(q) by {
            lemma_cache_insert_keeps(was, ck, pairs.last().1@, None, None, 0, revisions[n], q);
        }
        assert(now.entries.dom().subset_of(was.entries.dom().insert(ck)));
        vstd::set_lib::lemma_set_subset_finite(was.entries.dom().insert(ck), now.entries.dom());
    }
}

/// A page of a scan: its keys are live, match the pattern, ascend and come once. A scan that begins
/// leaves out no key up to the last that it gives; the cursor `0` says that there are no more, and
/// any other cursor that the page is full.
pub proof fn lemma_scan_page(
    index: NsIndex,
    cursor: Seq<u8>,
    pattern: Option<Seq<u8>>,
    count: u64,
    now: u64,
    keys: Seq<Seq<u8>>,
    next_cursor: Seq<u8>,
)
    requires
        index.wf(),
        count <= usize::MAX,
        scans(index, cursor, pattern, count, now, keys, next_cursor),
    ensures
        forall|i: int|
            0 <= i < keys.len() ==> index@.map.dom().contains(#[trigger] keys[i]) && (
            index@.ttl.dom().contains(keys[i]) ==> index@.ttl[keys[i]] > now) && (
            pattern matches Some(p) ==> glob(p, keys[i])),
        forall|i: int, j: int|
            0 <= i < j < keys.len() ==> before(#[trigger] keys[i], #[trigger] keys[j]),
        keys.no_duplicates(),
        keys.len() <= count || count == 0 && keys.len() <= 1,
        next_cursor == seq![48u8] || next_cursor.len() == 8 && (keys.len() == count || count == 0
            && keys.len() == 1),
        cursor.len() != 8 ==> forall|k: Seq<u8>| #[trigger]
            index@.map.dom().contains(k) && (index@.ttl.dom().contains(k) ==> index@.ttl[k] > now)
                && (pattern matches Some(p) ==> glob(p, k)) ==> keys.contains(k) || next_cursor
                != seq![48u8] && forall|i: int| 0 <= i < keys.len() ==> before(#[trigger] keys[i], k),
{
    let pos = cursor_position(cursor);
    let accept = pattern_test(pattern);
    if pos <= index.items().len() {
        let start = crate::engine::store::position_cursor(index.items(), pos);
        let next = choose|next: Option<Seq<u8>>| #[trigger]
            is_page(index@, start, page_size(count as usize), now, accept, keys, next)
                && match next {
                None => next_cursor == seq![48u8],
                Some(last) => crate::engine::store::cursor_behind(
                    index.items(),
                    last,
                    next_cursor,
                ),
            };
        assert forall|i: int, j: int|
            0 <= i < keys.len() && 0 <= j < keys.len() && i != j implies keys[i] != keys[j] by {
            lemma_before_irreflexive(keys[i]);
            if i < j {
                assert(before(keys[i], keys[j]));
            } else {
                assert(before(keys[j], keys[i]));
            }
        }
        assert forall|i: int| 0 <= i < keys.len() implies index@.live(#[trigger] keys[i], now)
            && accept(keys[i]) by {
            assert(crate::engine::log::index::candidate(index@, start, now, accept, keys[i]));
        }
        if let Some(last) = next {
            let n = choose|n: u64|
                n <= index.items().len() && next_cursor == #[trigger] le64(n);
            lemma_le64(n);
            assert(next_cursor[0] == next_cursor[0]);
        }
        if cursor.len() != 8 {
            assert forall|k: Seq<u8>| #[trigger]
                index@.map.dom().contains(k) && (index@.ttl.dom().contains(k) ==> index@.ttl[k]
                    > now) && (pattern matches Some(p) ==> glob(p, k)) implies keys.contains(k)
                || next_cursor != seq![48u8] && forall|i: int|
                0 <= i < keys.len() ==> before(#[trigger] keys[i], k) by {
                assert(crate::engine::log::index::candidate(index@, start, now, accept, k));
                if !keys.contains(k) {
                    let last = keys.last();
                    assert(next == Some(last));
                    crate::bytes::lemma_before_total(k, last);
                    assert(before(last, k));
                    assert forall|i: int| 0 <= i < keys.len() implies before(
                        #[trigger] keys[i],
                        k,
                    ) by {
                        if i < keys.len() - 1 {
                            assert(before(keys[i], keys[keys.len() - 1]));
                            crate::bytes::lemma_before_transitive(keys[i], last, k);
                        }
                    }
                }
            }
        }
    }
}

/// A cursor in between is the number of keys behind which the scan goes on, in eight bytes; what is
/// not eight bytes long stands for the start.
pub proof fn lemma_cursor_reads_back(n: u64, cursor: Seq<u8>)
    ensures
        le64(n).len() == 8,
        cursor_position(le64(n)) == n,
        cursor.len() != 8 ==> cursor_position(cursor) == 0,
{
    lemma_le64(n);
    assert(le64(n).subrange(0, 8) =~= le64(n));
}

/// The first database is `default`, and any other one `db` with its number.
pub proof fn lemma_database_texts(db: u64)
    ensures
        database_name(0) == "default"@,
        db > 0 ==> database_name(db) == "db"@ + decimal(db as nat),
{
}

/// A name is one to sixty-four letters, digits, underscores and hyphens.
pub proof fn lemma_valid_names(name: Seq<char>)
    ensures
        valid_name(encode_utf8(name)) && vstd::utf8::is_ascii_chars(name) ==> 1 <= name.len() <= 64,
        vstd::utf8::is_ascii_chars(name) ==> (valid_name(encode_utf8(name)) <==> 1 <= name.len()
            <= 64 && forall|i: int|
            0 <= i < name.len() ==> ('a' <= #[trigger] name[i] <= 'z' || 'A' <= name[i] <= 'Z'
                || '0' <= name[i] <= '9' || name[i] == '_' || name[i] == '-')),
{
    if vstd::utf8::is_ascii_chars(name) {
        is_ascii_chars_encode_utf8(name);
        let e = encode_utf8(name);
        assert forall|i: int| 0 <= i < name.len() implies e[i] == (#[trigger] name[i]) as u8 by {}
        if valid_name(e) {
            assert forall|i: int| 0 <= i < name.len() implies ('a' <= #[trigger] name[i] <= 'z'
                || 'A' <= name[i] <= 'Z' || '0' <= name[i] <= '9' || name[i] == '_' || name[i]
                == '-') by {
                assert(name_byte(e[i]));
            }
        }
    }
}

/// A write under way changes the log of its own namespace and nothing else of the store: the log takes
/// the next revision, and the index and the cache stay as they are until the record is written.
pub proof fn lemma_set_begins(
    before: ShardStore,
    ns: Seq<char>,
    key: Seq<u8>,
    value: Seq<u8>,
    expires_at_ms: Option<u64>,
    now: u64,
    p: PendingPut,
    after: ShardStore,
    other: Seq<u8>,
)
    requires
        before.is_open(ns),
        before.namespaces@[encode_utf8(ns)]@.last_tstamp < u64::MAX,
        set_started(before, ns, key, value, expires_at_ms, now, p, after),
    ensures
        p.key@ == key && p.expires_at_ms == expires_at_ms,
        p.tstamp > before.namespaces@[encode_utf8(ns)]@.last_tstamp && p.tstamp >= now,
        after.namespaces@[encode_utf8(ns)]@.last_tstamp == p.tstamp,
        after.namespaces@[encode_utf8(ns)]@.index == before.namespaces@[encode_utf8(ns)]@.index,
        after.cache == before.cache,
        after.namespaces@.dom().contains(other) <==> before.namespaces@.dom().contains(other),
        other != encode_utf8(ns) && before.namespaces@.dom().contains(other)
            ==> after.namespaces@[other] == before.namespaces@[other],
{
}

/// The records that were read are found by their slots.
pub proof fn lemma_reads_found(reads: Seq<(usize, Vec<u8>, Vec<u8>)>, slot: int, i: int)
    requires
        forall|a: int, b: int|
            0 <= a < b < reads.len() ==> (#[trigger] reads[a]).0 < (#[trigger] reads[b]).0,
    ensures
        0 <= i < reads.len() && reads[i].0 == slot ==> read_for(reads, slot) == Some(
            (reads[i].1@, reads[i].2@),
        ),
        (forall|j: int| 0 <= j < reads.len() ==> (#[trigger] reads[j]).0 != slot) ==> read_for(
            reads,
            slot,
        ) is None,
{
    if 0 <= i < reads.len() && reads[i].0 == slot {
        let j = choose|j: int| 0 <= j < reads.len() && (#[trigger] reads[j]).0 == slot;
        if i < j {
            assert(reads[i].0 < reads[j].0);
        } else if j < i {
            assert(reads[j].0 < reads[i].0);
        }
    }
}

/// Behind a read of several records the cache has, of each key that it holds, what the last record read
/// for that key says: its value, its metadata, its expiry and its revision; of other keys what it had.
pub proof fn lemma_reads_in_cache(
    cache: CacheView,
    ns: Seq<u8>,
    keys: Seq<Vec<u8>>,
    steps: Seq<StepView>,
    reads: Seq<(usize, Vec<u8>, Vec<u8>)>,
    q: Seq<u8>,
)
    requires
        cache.entries.dom().finite(),
        forall|i: int| 0 <= i < reads.len() ==> steps[(#[trigger] reads[i]).0 as int] is Read,
        forall|i: int| 0 <= i < reads.len() ==> (#[trigger] reads[i]).2@.len() <= usize::MAX,
        cache_with_reads(cache, ns, keys, steps, reads).entries.dom().contains(q),
    ensures
        cache_with_reads(cache, ns, keys, steps, reads).entries.dom().finite(),
        ({
            let e = cache_with_reads(cache, ns, keys, steps, reads).entries[q];
            &&& reads.len() > 0 && q == ns + seq![0u8] + keys[reads.last().0 as int]@ ==> {
                let meta = reads.last().2@;
                &&& e.value == reads.last().1@
                &&& e.expires_at_ms == steps[reads.last().0 as int]->expires_at_ms
                &&& e.revision == steps[reads.last().0 as int]->entry.tstamp_ms
                &&& e.metadata is Some <==> meta.len() > 0 && json_valid(meta)
                &&& e.metadata matches Some(m) ==> m == meta
            }
            &&& reads.len() > 0 && q != ns + seq![0u8] + keys[reads.last().0 as int]@ ==> {
                let was = cache_with_reads(cache, ns, keys, steps, reads.drop_last());
                &&& was.entries.dom().contains(q)
                &&& e.value == was.entries[q].value && e.revision == was.entries[q].revision
                &&& e.expires_at_ms == was.entries[q].expires_at_ms
                &&& e.metadata == was.entries[q].metadata
            }
            &&& reads.len() == 0 ==> e == cache.entries[q]
        }),
    decreases reads.len(),
{
    if reads.len() > 0 {
        let head = reads.drop_last();
        let was = cache_with_reads(cache, ns, keys, steps, head);
        lemma_reads_stay_finite(cache, ns, keys, steps, head);
        lemma_reads_stay_finite(cache, ns, keys, steps, reads);
        let (slot, value, meta) = reads.last();
        let ck = cache_key_of(ns, keys[slot as int]@);
        assert(steps[reads[reads.len() - 1].0 as int] is Read);
        if let StepView::Read { entry, expires_at_ms } = steps[slot as int] {
            lemma_cache_insert_keeps(
                was,
                ck,
                value@,
                expires_at_ms,
                crate::engine::log::read::metadata_of(meta@),
                meta@.len() as usize,
                entry.tstamp_ms,
                q,
            );
        }
    }
}

proof fn lemma_reads_stay_finite(
    cache: CacheView,
    ns: Seq<u8>,
    keys: Seq<Vec<u8>>,
    steps: Seq<StepView>,
    reads: Seq<(usize, Vec<u8>, Vec<u8>)>,
)
    requires
        cache.entries.dom().finite(),
    ensures
        cache_with_reads(cache, ns, keys, steps, reads).entries.dom().finite(),
    decreases reads.len(),
{
    if reads.len() > 0 {
        let was = cache_with_reads(cache, ns, keys, steps, reads.drop_last());
        lemma_reads_stay_finite(cache, ns, keys, steps, reads.drop_last());
        let (slot, value, meta) = reads.last();
        let ck = cache_key_of(ns, keys[slot as int]@);
        if let StepView::Read { entry, expires_at_ms } = steps[slot as int] {
            let m = crate::engine::log::read::metadata_of(meta@);
            let n = meta@.len() as usize;
            let now = inserted(was, ck, value@, expires_at_ms, m, n, entry.tstamp_ms);
            assert forall|q: Seq<u8>| #[trigger]
                now.entries.dom().contains(q) implies was.entries.dom().insert(ck).contains(q) by {
                lemma_cache_insert_keeps(
                    was,
                    ck,
                    value@,
                    expires_at_ms,
                    m,
                    n,
                    entry.tstamp_ms,
                    q,
                );
            }
            vstd::set_lib::lemma_set_subset_finite(was.entries.dom().insert(ck), now.entries.dom());
        }
    }
}

} // verus!
