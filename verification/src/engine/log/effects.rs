//! What writes, merges and replays do, in terms of what a reader of the log sees.
use vstd::prelude::*;
use vstd::utf8::encode_utf8;

use crate::engine::error::{EngineError, Result};
use crate::engine::log::index::{IndexEntry, IndexView};
use crate::engine::log::read::{
    change_of, chronological, current_event, fetched, json_valid, miss_result, placed, resolved,
    Current, FetchedView, Miss,
};
use crate::engine::log::reclaim::{
    at_level, footer_of, highest_id, joined, level_above, live_in, marked, merged_footer,
    moved_entry, moved_index, records_fit, ripe, with_run, without_ids, LiveView,
};
use crate::engine::log::record::{
    body_size, crc64, fits, header_at, lemma_record_round_trip, RecordHeader,
};
use crate::engine::log::recover::{hash_of, lemma_hash_of};
use crate::engine::log::write::{
    bare_reserved, batch_bytes, batch_index, calls_for_rotation, entombed, live_revision, poisoned,
    put_bytes, put_flags, put_index, reserved, staged, ttl_flags, unref_all, Batch, PendingPut,
    PendingTombstone, Place, WriteCondition,
};
use crate::engine::log::{next_revision, run_file, runs_ascend, LogView, Run};
use crate::engine::value_store::{
    blake3_256, blob_hash, blob_name, content, lemma_blob_name, nibble, unhex, ContentHash,
    ValueStore, ValueView,
};
use crate::engine::watch::{EventView, KeyFilter};

verus! {

/// A revision is later than every one before it and no earlier than the clock; it is the clock's
/// time, or the next number where the clock is behind.
pub proof fn lemma_revisions_grow(last: u64, now: u64)
    requires
        last < u64::MAX,
    ensures
        next_revision(last, now) > last,
        next_revision(last, now) >= now,
        next_revision(last, now) == now || next_revision(last, now) == last + 1,
{
}

/// Behind a put the index has the record's place, revision, expiry and blob under its key, and what
/// it had under other keys.
pub proof fn lemma_put_shows(
    idx: IndexView,
    p: PendingPut,
    file_id: u32,
    offset: u64,
    size: u32,
    q: Seq<u8>,
)
    ensures
        ({
            let after = put_index(idx, p, file_id, offset, size);
            let k = p.key@;
            &&& after.map.dom().contains(k)
            &&& after.map[k].file_id == file_id && after.map[k].record_offset == offset
            &&& after.map[k].record_size == size && after.map[k].tstamp_ms == p.tstamp
            &&& after.ttl.dom().contains(k) <==> p.expires_at_ms is Some
            &&& p.expires_at_ms matches Some(ms) ==> after.ttl[k] == ms
            &&& after.valsep.dom().contains(k) <==> p.hash is Some
            &&& p.hash matches Some(h) ==> after.valsep[k] == h
            &&& q != k ==> {
                &&& after.map.dom().contains(q) <==> idx.map.dom().contains(q)
                &&& after.ttl.dom().contains(q) <==> idx.ttl.dom().contains(q)
                &&& after.valsep.dom().contains(q) <==> idx.valsep.dom().contains(q)
                &&& after.map[q] == idx.map[q] && after.ttl[q] == idx.ttl[q]
                &&& after.valsep[q] == idx.valsep[q]
            }
        }),
{
}

/// The flags of a put and of a change of expiry: 2 says that there is no expiry, 8 that the value is
/// kept as a blob, 4 that the record changes nothing but the expiry.
pub proof fn lemma_flags_of_writes()
    ensures
        put_flags(Some(0), false) == 0,
        forall|ms: u64| #[trigger] put_flags(Some(ms), false) == 0,
        forall|ms: u64| #[trigger] put_flags(Some(ms), true) == 8,
        put_flags(None, false) == 2,
        put_flags(None, true) == 10,
        forall|ms: u64| #[trigger] ttl_flags(Some(ms)) == 4,
        ttl_flags(None) == 6,
{
    assert(0u8 | 0u8 == 0) by (bit_vector);
    assert(0u8 | 8u8 == 8) by (bit_vector);
    assert(2u8 | 0u8 == 2) by (bit_vector);
    assert(2u8 | 8u8 == 10) by (bit_vector);
    assert(4u8 | 2u8 == 6) by (bit_vector);
}

/// A conditional write goes through as its condition says: where the key is not live, where it is
/// live, or where it is live with exactly this revision.
pub proof fn lemma_conditions(idx: IndexView, k: Seq<u8>, now: u64, rev: u64)
    ensures
        ({
            let live = idx.map.dom().contains(k) && (idx.ttl.dom().contains(k) ==> idx.ttl[k]
                > now);
            let current = live_revision(idx, k, now);
            &&& current is Some <==> live
            &&& live ==> current == Some(idx.map[k].tstamp_ms)
            &&& WriteCondition::KeyAbsent.holds(current) <==> !live
            &&& WriteCondition::KeyPresent.holds(current) <==> live
            &&& WriteCondition::Revision(rev).holds(current) <==> live && idx.map[k].tstamp_ms
                == rev
        }),
{
}

/// A put takes the next revision and changes nothing else of the log but the count of its blob. The
/// value is kept as a blob where it is at least as long as the threshold, and the blob is written
/// where no other value has it.
pub proof fn lemma_put_staged(
    s: LogView,
    key: Seq<u8>,
    value: Seq<u8>,
    expires_at_ms: Option<u64>,
    clock: u64,
    p: PendingPut,
    t: LogView,
)
    requires
        s.last_tstamp < u64::MAX,
        staged(s, key, value, expires_at_ms, clock, p, t),
    ensures
        p.key@ == key,
        p.expires_at_ms == expires_at_ms,
        p.tstamp > s.last_tstamp && p.tstamp >= clock,
        p.tstamp == clock || p.tstamp == s.last_tstamp + 1,
        t.last_tstamp == p.tstamp,
        p.hash is Some <==> value.len() >= s.config.value_sep_threshold,
        p.hash matches Some(h) ==> h == content(value),
        p.write_blob <==> p.hash is Some && !(s.values.refs.dom().contains(content(value)@)
            && s.values.refs[content(value)@] > 0),
        t.index == s.index && t.sealed == s.sealed && t.active == s.active && t.config == s.config,
        p.hash is None ==> t.values == s.values,
        p.hash matches Some(h) ==> t.values == s.values.inc(h),
        p.flags == (if expires_at_ms is None {
            2int
        } else {
            0
        }) + (if p.hash is Some {
            8int
        } else {
            0
        }),
{
    lemma_flags_of_writes();
    if let Some(ms) = expires_at_ms {
        assert(put_flags(Some(ms), p.hash is Some) == put_flags(expires_at_ms, p.hash is Some));
    }
}

/// Two places that are reserved one after the other do not overlap: the second begins where the first
/// ends, in the same file, and only the length of the active file has changed. A file that failed
/// before gives no place.
pub proof fn lemma_places_follow(
    s: LogView,
    t: LogView,
    u: LogView,
    n: int,
    m: int,
    first: Place,
    second: Place,
)
    requires
        0 <= n <= u64::MAX,
        0 <= m <= u64::MAX,
        s.active.write_offset + n <= u64::MAX,
        reserved(s, n, Ok::<Place, EngineError>(first), t),
        reserved(t, m, Ok::<Place, EngineError>(second), u),
    ensures
        !s.active.poisoned,
        first.file_id == s.active.file_id && second.file_id == first.file_id,
        first.offset == s.active.write_offset,
        first.len == n && second.len == m,
        second.offset == first.offset + n,
        t.active.write_offset == first.offset + n,
        t.index == s.index && t.sealed == s.sealed && t.values == s.values && t.last_tstamp
            == s.last_tstamp,
{
}

/// A file that failed before gives no place and stays as it is.
pub proof fn lemma_poisoned_gives_no_place(s: LogView, n: int, r: Result<Place>, t: LogView)
    requires
        reserved(s, n, r, t),
    ensures
        r is Err <==> s.active.poisoned,
        s.active.poisoned ==> t == s,
{
}

/// Once a write failed, its file is marked, and no other.
pub proof fn lemma_poison_marks_one(s: LogView, file_id: u32)
    ensures
        s.active.file_id == file_id ==> poisoned(s, file_id).active.poisoned,
        s.active.file_id != file_id ==> poisoned(s, file_id) == s,
        poisoned(s, file_id).index == s.index && poisoned(s, file_id).sealed == s.sealed,
        poisoned(s, file_id).active.write_offset == s.active.write_offset,
        poisoned(s, file_id).active.file_id == s.active.file_id,
{
}

/// A file is found under its id: the active one, or the sealed run that has it; no other file has one.
pub proof fn lemma_files_found(s: LogView, file_id: u32)
    ensures
        s.active.file_id == file_id ==> s.file(file_id) == Some(s.active),
        s.active.file_id != file_id && s.file(file_id) is Some ==> s.file(file_id)->0.file_id
            == file_id,
        s.active.file_id != file_id ==> (s.file(file_id) is Some <==> exists|i: int|
            0 <= i < s.sealed.len() && (#[trigger] s.sealed[i]).file.file_id == file_id),
        s.active.file_id != file_id && s.file(file_id) is Some ==> exists|i: int|
            0 <= i < s.sealed.len() && Some((#[trigger] s.sealed[i]).file) == s.file(file_id),
        calls_for_rotation(s, file_id) <==> s.file(file_id) is Some && s.file(
            file_id,
        )->0.write_offset >= s.config.rotate_threshold,
{
    if s.active.file_id != file_id {
        lemma_run_found(s.sealed, file_id);
    }
}

proof fn lemma_run_found(runs: Seq<Run>, file_id: u32)
    ensures
        run_file(runs, file_id) matches Some(f) ==> f.file_id == file_id,
        run_file(runs, file_id) is Some ==> exists|i: int|
            0 <= i < runs.len() && Some((#[trigger] runs[i]).file) == run_file(runs, file_id),
        (exists|i: int| 0 <= i < runs.len() && (#[trigger] runs[i]).file.file_id == file_id)
            ==> run_file(runs, file_id) is Some,
    decreases runs.len(),
{
    if runs.len() > 0 {
        let head = runs.drop_last();
        lemma_run_found(head, file_id);
        if runs.last().file.file_id == file_id {
            assert(runs[runs.len() - 1].file.file_id == file_id);
        } else {
            if run_file(head, file_id) is Some {
                let i = choose|i: int|
                    0 <= i < head.len() && Some((#[trigger] head[i]).file) == run_file(
                        head,
                        file_id,
                    );
                assert(runs[i] == head[i]);
            }
            if exists|i: int|
                0 <= i < runs.len() && (#[trigger] runs[i]).file.file_id == file_id {
                let i = choose|i: int|
                    0 <= i < runs.len() && (#[trigger] runs[i]).file.file_id == file_id;
                assert(head[i].file.file_id == file_id);
            }
        }
    }
}

/// Behind a batch the index has, of each key, the record of the last put with that key, and of other
/// keys what it had.
pub proof fn lemma_batch_shows(
    idx: IndexView,
    b: Batch,
    n: int,
    file_id: u32,
    base: u64,
    i: int,
)
    requires
        0 <= n <= b.puts@.len(),
        -1 <= i < n,
        forall|j: int| i < j < n ==> (#[trigger] b.puts@[j]).key@ != b.puts@[i].key@,
    ensures
        0 <= i ==> ({
            let after = batch_index(idx, b, n, file_id, base);
            let p = b.puts@[i];
            &&& after.map.dom().contains(p.key@)
            &&& after.map[p.key@].file_id == file_id && after.map[p.key@].tstamp_ms == p.tstamp
            &&& after.map[p.key@].record_size == b.layout@[i].1
            &&& base + b.layout@[i].0 <= u64::MAX ==> after.map[p.key@].record_offset == base
                + b.layout@[i].0
            &&& after.ttl.dom().contains(p.key@) <==> p.expires_at_ms is Some
            &&& p.expires_at_ms matches Some(ms) ==> after.ttl[p.key@] == ms
            &&& after.valsep.dom().contains(p.key@) <==> p.hash is Some
            &&& p.hash matches Some(h) ==> after.valsep[p.key@] == h
        }),
    decreases n,
{
    if 0 <= i {
        let p = b.puts@[i];
        if i < n - 1 {
            lemma_batch_shows(idx, b, n - 1, file_id, base, i);
            assert(b.puts@[n - 1].key@ != p.key@);
        }
    }
}

/// A batch leaves the keys alone that it does not name.
pub proof fn lemma_batch_spares(
    idx: IndexView,
    b: Batch,
    n: int,
    file_id: u32,
    base: u64,
    q: Seq<u8>,
)
    requires
        0 <= n <= b.puts@.len(),
        forall|j: int| 0 <= j < n ==> (#[trigger] b.puts@[j]).key@ != q,
    ensures
        ({
            let after = batch_index(idx, b, n, file_id, base);
            &&& after.map.dom().contains(q) <==> idx.map.dom().contains(q)
            &&& after.ttl.dom().contains(q) <==> idx.ttl.dom().contains(q)
            &&& after.valsep.dom().contains(q) <==> idx.valsep.dom().contains(q)
            &&& after.map[q] == idx.map[q] && after.ttl[q] == idx.ttl[q] && after.valsep[q]
                == idx.valsep[q]
        }),
    decreases n,
{
    if n > 0 {
        lemma_batch_spares(idx, b, n - 1, file_id, base, q);
        assert(b.puts@[n - 1].key@ != q);
    }
}

/// A deletion takes the next revision, takes its key out of the index, and names the blob that the key
/// had.
pub proof fn lemma_deletion_staged(
    s: LogView,
    key: Seq<u8>,
    clock: u64,
    p: PendingTombstone,
    t: LogView,
    q: Seq<u8>,
)
    requires
        s.last_tstamp < u64::MAX,
        entombed(s, key, clock, p, t),
    ensures
        p.key@ == key,
        p.tstamp > s.last_tstamp && p.tstamp >= clock && t.last_tstamp == p.tstamp,
        p.hash is Some <==> s.index.valsep.dom().contains(key),
        p.hash matches Some(h) ==> h == s.index.valsep[key],
        !t.index.map.dom().contains(key),
        !t.index.ttl.dom().contains(key),
        !t.index.valsep.dom().contains(key),
        q != key ==> (t.index.map.dom().contains(q) <==> s.index.map.dom().contains(q))
            && t.index.map[q] == s.index.map[q],
        t.values == s.values && t.active == s.active && t.sealed == s.sealed,
{
}

/// The runs of one level, in order.
pub open spec fn of_level(level: u8) -> spec_fn(Run) -> bool {
    |r: Run| r.level == level
}

/// The runs whose file is not one of these.
pub open spec fn not_of(ids: Seq<u32>) -> spec_fn(Run) -> bool {
    |r: Run| !ids.contains(r.file.file_id)
}

/// A level's files are the files of the runs that have it, in order; it is ripe where there are as
/// many as the fanout, and at least one. What is merged away leaves, and the rest stays, in order.
pub proof fn lemma_levels(runs: Seq<Run>, level: u8, fanout: usize, ids: Seq<u32>)
    ensures
        at_level(runs, level) == runs.filter(of_level(level)).map_values(
            |r: Run| r.file.file_id,
        ),
        ripe(runs, level, fanout) <==> runs.filter(of_level(level)).len() >= fanout
            && runs.filter(of_level(level)).len() > 0,
        without_ids(runs, ids) == runs.filter(not_of(ids)),
        level < 255 ==> level_above(level) == level + 1,
        level_above(255) == 255,
    decreases runs.len(),
{
    reveal(Seq::filter);
    let ids_of = |r: Run| r.file.file_id;
    if runs.len() == 0 {
        assert(runs.filter(of_level(level)).map_values(ids_of) =~= seq![]);
        assert(without_ids(runs, ids) =~= runs.filter(not_of(ids)));
    } else {
        let head = runs.drop_last();
        lemma_levels(head, level, fanout, ids);
        let f = head.filter(of_level(level));
        assert(f.push(runs.last()).map_values(ids_of) =~= f.map_values(ids_of).push(
            runs.last().file.file_id,
        ));
    }
}

/// A run takes its place among the others: it replaces the one with its id, if there is one, and all
/// others stay.
pub proof fn lemma_run_placed(runs: Seq<Run>, r: Run, x: Run)
    requires
        runs_ascend(runs),
    ensures
        with_run(runs, r).contains(r),
        x.file.file_id != r.file.file_id ==> (with_run(runs, r).contains(x) <==> runs.contains(x)),
        x.file.file_id == r.file.file_id && with_run(runs, r).contains(x) ==> x == r,
    decreases runs.len(),
{
    let all = with_run(runs, r);
    if runs.len() == 0 || runs.last().file.file_id < r.file.file_id {
        assert(all[runs.len() as int] == r);
        assert forall|y: Run| all.contains(y) <==> #[trigger] runs.contains(y) || y == r by {
            if runs.contains(y) {
                let i = choose|i: int| 0 <= i < runs.len() && runs[i] == y;
                assert(all[i] == y);
            }
        }
        if x.file.file_id == r.file.file_id && runs.contains(x) {
            let i = choose|i: int| 0 <= i < runs.len() && runs[i] == x;
            assert(runs[i].file.file_id <= runs[runs.len() - 1].file.file_id);
        }
    } else if runs.last().file.file_id == r.file.file_id {
        let head = runs.drop_last();
        assert(all[head.len() as int] == r);
        assert forall|y: Run| all.contains(y) <==> #[trigger] head.contains(y) || y == r by {
            if head.contains(y) {
                let i = choose|i: int| 0 <= i < head.len() && head[i] == y;
                assert(all[i] == y);
            }
        }
        if head.contains(x) {
            let i = choose|i: int| 0 <= i < head.len() && head[i] == x;
            assert(runs[i] == x);
            assert(runs[i].file.file_id < runs[runs.len() - 1].file.file_id);
        }
        if runs.contains(x) && x.file.file_id != r.file.file_id {
            let i = choose|i: int| 0 <= i < runs.len() && runs[i] == x;
            assert(head[i] == x);
        }
    } else {
        let head = runs.drop_last();
        assert(runs_ascend(head));
        lemma_run_placed(head, r, x);
        let part = with_run(head, r);
        assert forall|y: Run| all.contains(y) <==> #[trigger] part.contains(y) || y
            == runs.last() by {
            if part.contains(y) {
                let i = choose|i: int| 0 <= i < part.len() && part[i] == y;
                assert(all[i] == y);
            }
            if y == runs.last() {
                assert(all[part.len() as int] == y);
            }
        }
        assert(part.contains(r));
        assert(all.contains(r));
        assert(runs.contains(x) <==> head.contains(x) || x == runs.last()) by {
            if runs.contains(x) {
                let i = choose|i: int| 0 <= i < runs.len() && runs[i] == x;
                if i < head.len() {
                    assert(head[i] == x);
                }
            }
            if head.contains(x) {
                let i = choose|i: int| 0 <= i < head.len() && head[i] == x;
                assert(runs[i] == x);
            }
            if x == runs.last() {
                assert(runs[runs.len() - 1] == x);
            }
        }
        assert(all.contains(x) <==> part.contains(x) || x == runs.last());
    }
}

/// The items whose record stands in one of these files.
pub open spec fn stands_in(ids: Seq<u32>) -> spec_fn((Vec<u8>, IndexEntry)) -> bool {
    |p: (Vec<u8>, IndexEntry)| ids.contains(p.1.file_id)
}

/// What a merge of some files carries over: every key whose record stands in one of them, in order,
/// with its entry, its expiry and its blob.
pub proof fn lemma_merge_carries(
    items: Seq<(Vec<u8>, IndexEntry)>,
    idx: IndexView,
    ids: Seq<u32>,
)
    ensures
        ({
            let kept = items.filter(stands_in(ids));
            let live = live_in(items, idx, ids);
            &&& live.len() == kept.len()
            &&& forall|i: int|
                0 <= i < live.len() ==> (#[trigger] live[i]).key == kept[i].0@ && live[i].entry
                    == kept[i].1 && live[i].expires_at_ms == (if idx.ttl.dom().contains(
                    live[i].key,
                ) {
                    Some(idx.ttl[live[i].key])
                } else {
                    None
                }) && live[i].value_hash == (if idx.valsep.dom().contains(live[i].key) {
                    Some(idx.valsep[live[i].key])
                } else {
                    None
                })
        }),
    decreases items.len(),
{
    reveal(Seq::filter);
    if items.len() > 0 {
        lemma_merge_carries(items.drop_last(), idx, ids);
    }
}

/// The footer of a file lists every key whose record stands in it, in order, with the record's place,
/// its revision, its expiry and its blob.
pub proof fn lemma_footer_lists(
    items: Seq<(Vec<u8>, IndexEntry)>,
    idx: IndexView,
    file_id: u32,
)
    ensures
        ({
            let kept = items.filter(stands_in(seq![file_id]));
            let list = footer_of(items, idx, file_id);
            &&& list.len() == kept.len()
            &&& forall|i: int|
                0 <= i < list.len() ==> (#[trigger] list[i]).key == kept[i].0@
                    && list[i].record_offset == kept[i].1.record_offset && list[i].record_size
                    == kept[i].1.record_size && list[i].tstamp_ms == kept[i].1.tstamp_ms
                    && list[i].expires_at_ms == (if idx.ttl.dom().contains(list[i].key) {
                    Some(idx.ttl[list[i].key])
                } else {
                    None
                }) && list[i].value_hash == (if idx.valsep.dom().contains(list[i].key) {
                    Some(idx.valsep[list[i].key]@)
                } else {
                    None
                })
        }),
    decreases items.len(),
{
    reveal(Seq::filter);
    assert(seq![file_id][0] == file_id);
    assert forall|id: u32| #[trigger] seq![file_id].contains(id) <==> id == file_id by {
        if id == file_id {
            assert(seq![file_id][0] == id);
        }
    }
    if items.len() > 0 {
        lemma_footer_lists(items.drop_last(), idx, file_id);
    }
}

/// Behind a merge the index has the new places of the keys that were carried over, each with the
/// expiry that it had, and of other keys what it had.
pub proof fn lemma_merge_shows(
    idx: IndexView,
    live: Seq<LiveView>,
    entries: Seq<IndexEntry>,
    n: int,
    i: int,
    q: Seq<u8>,
)
    requires
        0 <= n <= live.len(),
        forall|a: int, b: int|
            0 <= a < b < n ==> (#[trigger] live[a]).key != (#[trigger] live[b]).key,
    ensures
        ({
            let after = moved_index(idx, live, entries, n);
            &&& 0 <= i < n ==> after.map.dom().contains(live[i].key) && after.map[live[i].key]
                == entries[i] && (after.ttl.dom().contains(live[i].key)
                <==> live[i].expires_at_ms is Some) && (live[i].expires_at_ms matches Some(ms)
                ==> after.ttl[live[i].key] == ms)
            &&& after.valsep == idx.valsep
            &&& (forall|a: int| 0 <= a < n ==> (#[trigger] live[a]).key != q) ==> (
            after.map.dom().contains(q) <==> idx.map.dom().contains(q)) && after.map[q]
                == idx.map[q] && (after.ttl.dom().contains(q) <==> idx.ttl.dom().contains(q))
                && after.ttl[q] == idx.ttl[q]
        }),
    decreases n,
{
    if n > 0 {
        lemma_merge_shows(idx, live, entries, n - 1, i, q);
        if 0 <= i < n - 1 {
            assert(live[i].key != live[n - 1].key);
        }
        if forall|a: int| 0 <= a < n ==> (#[trigger] live[a]).key != q {
            assert(live[n - 1].key != q);
        }
    }
}

/// Pieces one behind the other: as long as all of them together, and each stands where the ones before
/// it end.
pub proof fn lemma_joined_pieces(parts: Seq<Vec<u8>>, i: int)
    requires
        0 <= i < parts.len(),
    ensures
        ({
            let at = joined(parts.take(i)).len() as int;
            let end = joined(parts.take(i + 1)).len() as int;
            &&& joined(parts.take(0)).len() == 0
            &&& end == at + parts[i]@.len()
            &&& end <= joined(parts).len()
            &&& joined(parts).subrange(at, end) == parts[i]@
        }),
    decreases parts.len(),
{
    assert(parts.take(0) =~= seq![]);
    assert(parts.take(i + 1).drop_last() =~= parts.take(i));
    let at = joined(parts.take(i)).len() as int;
    let end = joined(parts.take(i + 1)).len() as int;
    let head = parts.drop_last();
    if i < head.len() {
        lemma_joined_pieces(head, i);
        assert(head.take(i) =~= parts.take(i));
        assert(head.take(i + 1) =~= parts.take(i + 1));
        assert(joined(parts).subrange(at, end) =~= joined(head).subrange(at, end));
    } else {
        assert(parts.take(i) =~= head);
        assert(parts.take(i + 1) =~= parts);
        assert(joined(parts).subrange(at, end) =~= parts[i]@);
    }
}

/// A change is told to those who ask for its key and have not seen its revision: a deletion as one, a
/// put with its value, or with the blob to be read. Changes of expiry alone are not told.
pub proof fn lemma_change_told(h: RecordHeader, body: Seq<u8>, filter: KeyFilter<'_>, since: u64)
    requires
        body.len() == h.key_size + h.val_size + h.meta_size,
    ensures
        ({
            let key = body.take(h.key_size as int);
            let value = body.subrange(h.key_size as int, h.key_size + h.val_size);
            let meta = body.skip(h.key_size + h.val_size);
            let asked = match filter {
                KeyFilter::Exact(k) => key == k@,
                KeyFilter::Prefix(p) => p@.len() <= key.len() && key.take(p@.len() as int) == p@,
            };
            let news = h.tstamp_ms > since && h.flags & 4 == 0 && asked;
            let change = change_of(h, body, filter, since);
            &&& !news ==> change is None
            &&& news && h.flags & 1 != 0 ==> change == Some(
                (EventView::Del { key, revision: h.tstamp_ms }, None::<ContentHash>),
            )
            &&& news && h.flags & 1 == 0 && h.flags & 8 != 0 && h.val_size != 16 ==> change is None
            &&& news && h.flags & 1 == 0 && (h.flags & 8 == 0 || h.val_size == 16) ==> (
            change matches Some((e, blob)) && e == (EventView::SetKey {
                key,
                value,
                metadata: if meta.len() > 0 && json_valid(meta) {
                    Some(meta)
                } else {
                    None
                },
                expires_at_ms: if h.flags & 2 != 0 {
                    None
                } else {
                    Some(h.expires_at_ms)
                },
                revision: h.tstamp_ms,
            }) && blob == (if h.flags & 8 != 0 {
                Some(hash_of(value))
            } else {
                None
            }))
        }),
{
    assert(body.subrange(h.key_size + h.val_size, body_size(h)) =~= body.skip(
        h.key_size + h.val_size,
    ));
}

/// A record that was read gives its value; a blob's value is given only where its content hash is
/// the one that the record names.
pub proof fn lemma_blob_is_checked(m: Miss, value: Seq<u8>, meta: Seq<u8>)
    requires
        miss_result(m) == Ok::<(Seq<u8>, Seq<u8>), EngineError>((value, meta)),
    ensures
        m.record is Ok,
        fetched(m.record->Ok_0@) matches Ok(f) && match f {
            FetchedView::Inline { value: v, metadata } => v == value
                && metadata == meta,
            FetchedView::Blob { hash, metadata } => content(value) == hash && metadata == meta && m.blob is Some,
        },
{
}

/// Ending a catch-up keeps the changes without a blob as they are, in order; one with a blob has the
/// blob's bytes for its value, where they were read and are the right ones, and else is left out.
pub proof fn lemma_changes_resolved(
    changes: Seq<(EventView, Option<ContentHash>)>,
    c: (EventView, Option<ContentHash>),
    blobs: Seq<Option<Vec<u8>>>,
)
    requires
        blobs.len() == changes.len() + 1,
    ensures
        resolved(seq![], blobs) == Seq::<EventView>::empty(),
        c.1 is None ==> resolved(changes.push(c), blobs) == resolved(changes, blobs).push(c.0),
        c.1 is Some && (blobs.last() is None || content(blobs.last()->0@) != c.1->0) ==> resolved(
            changes.push(c),
            blobs,
        ) == resolved(changes, blobs),
        c.1 is Some && blobs.last() is Some && content(blobs.last()->0@) == c.1->0 && c.0
            is SetKey ==> resolved(changes.push(c), blobs) == resolved(changes, blobs).push(
            EventView::SetKey {
                key: c.0->SetKey_key,
                value: blobs.last()->0@,
                metadata: c.0->metadata,
                expires_at_ms: c.0->expires_at_ms,
                revision: c.0->SetKey_revision,
            },
        ),
{
    assert(changes.push(c).drop_last() =~= changes);
}

/// The event by which a new subscriber hears of a live key: a put of the value with its metadata and
/// its expiry, without a revision.
pub proof fn lemma_current_told(c: Current, value: Seq<u8>, meta: Seq<u8>)
    ensures
        current_event(c, value, meta) == (EventView::SetKey {
            key: c.key@,
            value,
            metadata: if meta.len() > 0 && json_valid(meta) {
                Some(meta)
            } else {
                None
            },
            expires_at_ms: c.expires_at_ms,
            revision: 0,
        }),
{
}

/// The events with this revision.
pub open spec fn at_revision(r: u64) -> spec_fn(EventView) -> bool {
    |e: EventView|
        match e {
            EventView::SetKey { revision, .. } => revision == r,
            EventView::Del { revision, .. } => revision == r,
        }
}

/// Putting changes in the order of their revisions leaves those with one revision in the order in
/// which they stood.
pub proof fn lemma_order_is_stable(events: Seq<EventView>, r: u64)
    ensures
        chronological(events).filter(at_revision(r)) == events.filter(at_revision(r)),
    decreases events.len(),
{
    reveal(Seq::filter);
    if events.len() > 0 {
        lemma_order_is_stable(events.drop_last(), r);
        lemma_placed_is_stable(chronological(events.drop_last()), events.last(), r);
    }
}

proof fn lemma_placed_is_stable(sorted: Seq<EventView>, e: EventView, r: u64)
    ensures
        placed(sorted, e).filter(at_revision(r)) == (if at_revision(r)(e) {
            sorted.filter(at_revision(r)).push(e)
        } else {
            sorted.filter(at_revision(r))
        }),
    decreases sorted.len(),
{
    reveal(Seq::filter);
    if sorted.len() == 0 || sorted.last().rev() <= e.rev() {
        assert(sorted.push(e).drop_last() =~= sorted);
    } else {
        let head = sorted.drop_last();
        lemma_placed_is_stable(head, e, r);
        assert(placed(head, e).push(sorted.last()).drop_last() =~= placed(head, e));
    }
}

/// Counting a blob in and out: one more and one less, and a blob that nothing names any more is
/// noted for deletion. Other blobs are not touched.
pub proof fn lemma_blob_counts(vals: ValueView, h: ContentHash, g: ContentHash)
    requires
        vals.count(h) < u64::MAX,
        vals.refs.dom().contains(h@) ==> vals.refs[h@] > 0,
    ensures
        vals.inc(h).count(h) == vals.count(h) + 1,
        vals.inc(h).pending == vals.pending,
        vals.count(h) > 0 ==> vals.unref(h).count(h) == vals.count(h) - 1,
        vals.count(h) == 0 ==> vals.unref(h).count(h) == 0,
        vals.count(h) == 1 ==> vals.unref(h).pending == vals.pending.push(h),
        vals.count(h) != 1 ==> vals.unref(h).pending == vals.pending,
        vals.inc(h).unref(h).count(h) == vals.count(h),
        g@ != h@ ==> vals.inc(h).count(g) == vals.count(g) && vals.unref(h).count(g)
            == vals.count(g),
        vals.count(h) == (if vals.refs.dom().contains(h@) {
            vals.refs[h@] as int
        } else {
            0
        }),
        vals.inc_opt(None) == vals,
        vals.inc_opt(Some(h)) == vals.inc(h),
        vals.unref_opt(None) == vals,
        vals.unref_opt(Some(h)) == vals.unref(h),
{
}

/// The content hash of a value is the first sixteen bytes of its BLAKE3 hash.
pub proof fn lemma_content_bytes(value: Seq<u8>, h: ContentHash)
    requires
        h@ == blake3_256(value).take(16),
    ensures
        content(value) == h,
        content(value)@ == blake3_256(value).take(16),
{
    lemma_hash_of(h);
}

/// A hexadecimal digit, in either case, and two of them as a byte, the first one counting sixteenfold.
pub proof fn lemma_hex_digits(b: u8, s: Seq<u8>, i: int)
    ensures
        nibble(b) is Some <==> '0' as u8 <= b <= '9' as u8 || 'a' as u8 <= b <= 'f' as u8 || 'A' as u8
            <= b <= 'F' as u8,
        '0' as u8 <= b <= '9' as u8 ==> nibble(b) == Some((b - '0' as u8) as u8),
        'a' as u8 <= b <= 'f' as u8 ==> nibble(b) == Some((b - 'a' as u8 + 10) as u8),
        'A' as u8 <= b <= 'F' as u8 ==> nibble(b) == Some((b - 'A' as u8 + 10) as u8),
        0 <= i && 2 * i + 1 < s.len() && nibble(s[2 * i]) is Some && nibble(s[2 * i + 1]) is Some
            ==> unhex(s)[i] == nibble(s[2 * i])->0 * 16 + nibble(s[2 * i + 1])->0,
        unhex(s).len() == s.len() / 2,
{
    if nibble(s[2 * i]) is Some && nibble(s[2 * i + 1]) is Some {
        assert(nibble(s[2 * i])->0 <= 15);
        assert(nibble(s[2 * i + 1])->0 <= 15);
    }
}

/// The places of a list at which this flag stands.
pub open spec fn flagged(flags: Seq<bool>, b: bool) -> Set<int> {
    Set::new(|i: int| 0 <= i < flags.len() && flags[i] == b)
}

/// Counting flags counts the places at which they stand.
pub proof fn lemma_flags_counted(flags: Seq<bool>, b: bool)
    ensures
        flagged(flags, b).finite(),
        marked(flags, b) == flagged(flags, b).len(),
    decreases flags.len(),
{
    let places = flagged(flags, b);
    if flags.len() == 0 {
        assert(places =~= Set::empty());
    } else {
        let head = flags.drop_last();
        lemma_flags_counted(head, b);
        let last = flags.len() - 1;
        if flags[last] == b {
            assert(places =~= flagged(head, b).insert(last));
        } else {
            assert(places =~= flagged(head, b));
        }
    }
}

/// A record that was carried over stands behind those before it, with its length and its revision, in
/// the new file; the new file's footer lists it under its key with its expiry and its blob.
pub proof fn lemma_moved_places(next_id: u32, live: Seq<LiveView>, records: Seq<Vec<u8>>, i: int)
    requires
        records_fit(live, records),
        0 <= i < live.len(),
        joined(records).len() <= u64::MAX,
    ensures
        ({
            let e = moved_entry(next_id, live, records, i);
            let f = merged_footer(next_id, live, records);
            &&& e.file_id == next_id
            &&& e.record_size == records[i]@.len()
            &&& e.tstamp_ms == live[i].entry.tstamp_ms
            &&& e.record_offset + e.record_size <= joined(records).len()
            &&& joined(records).subrange(
                e.record_offset as int,
                e.record_offset + e.record_size,
            ) == records[i]@
            &&& f.len() == live.len()
            &&& f[i].key == live[i].key && f[i].record_offset == e.record_offset
            &&& f[i].record_size == e.record_size && f[i].tstamp_ms == e.tstamp_ms
            &&& f[i].expires_at_ms == live[i].expires_at_ms
            &&& f[i].value_hash is Some <==> live[i].value_hash is Some
            &&& live[i].value_hash matches Some(h) ==> f[i].value_hash == Some(h@)
        }),
{
    lemma_joined_pieces(records, i);
    assert(records[i]@.len() == live[i].entry.record_size);
}

/// Taking back a blob that could not be written counts it out again, without noting it for deletion.
pub proof fn lemma_blob_taken_back(vals: ValueView, h: ContentHash, g: ContentHash)
    requires
        vals.count(h) < u64::MAX,
        vals.refs.dom().contains(h@) ==> vals.refs[h@] > 0,
    ensures
        vals.inc(h).dec(h).count(h) == vals.count(h),
        vals.count(h) > 0 ==> vals.dec(h).count(h) == vals.count(h) - 1,
        vals.dec(h).pending == vals.pending,
        g@ != h@ ==> vals.dec(h).count(g) == vals.count(g),
        ValueView::empty().count(h) == 0,
        ValueView::empty().pending.len() == 0,
{
}

/// A file in the blob store is an orphan where its name is a blob's and nothing refers to the blob.
pub proof fn lemma_orphans(refs: Map<Seq<u8>, u64>, h: ContentHash, name: Seq<u8>)
    ensures
        ValueStore::orphan(refs, encode_utf8(blob_name(h@))) <==> !refs.dom().contains(h@),
        blob_hash(name) is None ==> !ValueStore::orphan(refs, name),
        blob_hash(name) is Some ==> name.len() == 37 && name.take(5) == encode_utf8("blob-"@),
{
    lemma_blob_name(h);
}

/// The highest file id is that of the active file or of the last sealed one.
pub proof fn lemma_highest_id(s: LogView, i: int)
    requires
        runs_ascend(s.sealed),
    ensures
        highest_id(s) >= s.active.file_id,
        0 <= i < s.sealed.len() ==> highest_id(s) >= s.sealed[i].file.file_id,
        highest_id(s) == s.active.file_id || s.sealed.len() > 0 && highest_id(s)
            == s.sealed.last().file.file_id,
{
    if 0 <= i < s.sealed.len() - 1 {
        assert(s.sealed[i].file.file_id < s.sealed[s.sealed.len() - 1].file.file_id);
    }
}

/// How many of the puts carry this blob.
pub open spec fn carrying(puts: Seq<PendingPut>, h: ContentHash) -> Set<int> {
    Set::new(|i: int| 0 <= i < puts.len() && puts[i].hash == Some(h))
}

/// Taking back a batch counts each of its blobs out once for every put that carries it.
pub proof fn lemma_batch_counted_out(vals: ValueView, puts: Seq<PendingPut>, h: ContentHash)
    requires
        vals.count(h) >= carrying(puts, h).len(),
        forall|g: Seq<u8>| #[trigger] vals.refs.dom().contains(g) ==> vals.refs[g] > 0,
    ensures
        carrying(puts, h).finite(),
        unref_all(vals, puts).count(h) + carrying(puts, h).len() == vals.count(h),
        forall|g: Seq<u8>| #[trigger]
            unref_all(vals, puts).refs.dom().contains(g) ==> unref_all(vals, puts).refs[g] > 0,
    decreases puts.len(),
{
    let all = carrying(puts, h);
    if puts.len() == 0 {
        assert(all =~= Set::empty());
    } else {
        let head = puts.drop_last();
        let last = puts.len() - 1;
        let some = carrying(head, h);
        lemma_carrying_finite(head, h);
        if puts[last].hash == Some(h) {
            assert(all =~= some.insert(last));
        } else {
            assert(all =~= some);
        }
        lemma_batch_counted_out(vals, head, h);
        if let Some(g) = puts[last].hash {
            if g@ == h@ {
                assert(g =~= h);
            }
        }
    }
}

proof fn lemma_carrying_finite(puts: Seq<PendingPut>, h: ContentHash)
    ensures
        carrying(puts, h).finite(),
    decreases puts.len(),
{
    let all = carrying(puts, h);
    if puts.len() == 0 {
        assert(all =~= Set::empty());
    } else {
        let head = puts.drop_last();
        lemma_carrying_finite(head, h);
        assert(all.subset_of(carrying(head, h).insert(puts.len() - 1)));
        vstd::set_lib::lemma_set_subset_finite(carrying(head, h).insert(puts.len() - 1), all);
    }
}

/// The record of a put: its revision, its flags, its expiry or zero, its key, the value itself or the
/// content hash in its place, and the metadata.
pub proof fn lemma_put_record(p: PendingPut, value: Seq<u8>, metadata: Seq<u8>)
    requires
        fits(
            p.key@,
            match p.hash {
                Some(h) => h@,
                None => value,
            },
            metadata,
        ),
    ensures
        ({
            let b = put_bytes(p, value, metadata);
            let h = header_at(b);
            let field = match p.hash {
                Some(h) => h@,
                None => value,
            };
            &&& h.tstamp_ms == p.tstamp && h.flags == p.flags
            &&& p.expires_at_ms matches Some(ms) ==> h.expires_at_ms == ms
            &&& p.expires_at_ms is None ==> h.expires_at_ms == 0
            &&& h.key_size == p.key@.len() && h.val_size == field.len() && h.meta_size
                == metadata.len()
            &&& b.skip(37) == p.key@ + field + metadata
            &&& h.crc == crc64(b.skip(8))
        }),
{
    lemma_record_round_trip(
        p.tstamp,
        p.flags,
        match p.expires_at_ms {
            Some(ms) => ms,
            None => 0,
        },
        p.key@,
        match p.hash {
            Some(h) => h@,
            None => value,
        },
        metadata,
    );
}

/// A batch is the records of its puts one behind the other.
pub proof fn lemma_batch_records(
    puts: Seq<PendingPut>,
    values: Seq<Seq<u8>>,
    p: PendingPut,
    v: Seq<u8>,
)
    requires
        puts.len() == values.len(),
    ensures
        batch_bytes(seq![], seq![]) == Seq::<u8>::empty(),
        batch_bytes(puts.push(p), values.push(v)) == batch_bytes(puts, values) + put_bytes(
            p,
            v,
            seq![],
        ),
{
    assert(puts.push(p).drop_last() =~= puts);
    assert(values.push(v).drop_last() =~= values);
}

/// The record of a deletion or of a change of expiry has a key and nothing else, and stands where the
/// active file ends.
pub proof fn lemma_bare_record(
    s: LogView,
    tstamp: u64,
    flags: u8,
    exp: u64,
    key: Seq<u8>,
    place: Place,
    b: Vec<u8>,
    t: LogView,
)
    requires
        bare_reserved(s, tstamp, flags, exp, key, Ok::<(Place, Vec<u8>), EngineError>((place, b)), t),
        s.active.write_offset + b@.len() <= u64::MAX,
    ensures
        37 + key.len() <= 0xffff_ffff,
        b@.len() == 37 + key.len(),
        header_at(b@).tstamp_ms == tstamp && header_at(b@).flags == flags,
        header_at(b@).expires_at_ms == exp,
        b@.skip(37) == key,
        place.file_id == s.active.file_id && place.offset == s.active.write_offset && place.len
            == b@.len(),
        t.active.write_offset == s.active.write_offset + b@.len(),
        t.index == s.index && t.values == s.values,
{
    lemma_record_round_trip(tstamp, flags, exp, key, seq![], seq![]);
    assert(key + Seq::<u8>::empty() + Seq::<u8>::empty() =~= key);
}

/// A record is given only where it is whole and its checksum holds: its value, or the content hash that
/// stands for it, and its metadata. What is too short, damaged, or carries no proper hash is refused.
pub proof fn lemma_records_checked(b: Seq<u8>)
    ensures
        ({
            let h = header_at(b);
            let key_end = 37 + h.key_size;
            let val_end = key_end + h.val_size;
            let end = val_end + h.meta_size;
            let whole = b.len() >= 37 && b.len() >= end;
            let sound = whole && crc64(b.subrange(8, end)) == h.crc;
            &&& b.len() < 37 ==> fetched(b) == Err::<FetchedView, EngineError>(
                EngineError::BadRecord { offset: 0, reason: "short header" },
            )
            &&& b.len() >= 37 && !whole ==> fetched(b) == Err::<FetchedView, EngineError>(
                EngineError::BadRecord {
                    offset: 0,
                    reason: "record bytes shorter than declared sizes",
                },
            )
            &&& whole && !sound ==> fetched(b) == Err::<FetchedView, EngineError>(
                EngineError::CrcMismatch { offset: 0 },
            )
            &&& sound && h.flags & 8 == 0 ==> fetched(b) == Ok::<FetchedView, EngineError>(
                FetchedView::Inline {
                    value: b.subrange(key_end, val_end),
                    metadata: b.subrange(val_end, end),
                },
            )
            &&& sound && h.flags & 8 != 0 && h.val_size == 16 ==> fetched(b) == Ok::<
                FetchedView,
                EngineError,
            >(
                FetchedView::Blob {
                    hash: hash_of(b.subrange(key_end, val_end)),
                    metadata: b.subrange(val_end, end),
                },
            )
            &&& sound && h.flags & 8 != 0 && h.val_size != 16 ==> fetched(b) is Err
        }),
{
}

} // verus!
