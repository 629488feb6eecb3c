//! Reads: values out of records, and the changes that a log holds.
use vstd::prelude::*;

use crate::bytes::{before, lemma_before_irreflexive, lemma_prefix_bytes};
use crate::bytes;
use crate::engine::error::{EngineError, Result};
use crate::engine::log::file::hash_at;
use crate::engine::log::index::{sorted, IndexEntry, IndexView};
use crate::engine::log::record::flags::{NO_EXPIRY, TOMBSTONE, TTL_UPDATE, VALUE_SEP};
use crate::engine::log::record::{
    body_size, crc64, fits, header_at, lemma_record_round_trip, parse_header, record_bytes,
    verify_crc, RecordHeader, HEADER_LEN,
};
use crate::engine::log::recover::{expiry_of, hash_of, lemma_hash_of};
use crate::engine::log::NamespaceLog;
use crate::engine::value_store::{content, content_hash, ContentHash};
use crate::engine::watch::{event_views, EventView, KeyFilter, WatchEvent};

verus! {

/// These bytes are a JSON text.
pub uninterp spec fn json_valid(text: Seq<u8>) -> bool;

/// `serde_json::from_slice` into a `serde_json::Value`: whether the bytes are a JSON text.
#[verifier::external_body]
fn is_json(text: &[u8]) -> (r: bool)
    ensures
        r == json_valid(text@),
{
    serde_json::from_slice::<serde_json::Value>(text).is_ok()
}

/// The metadata that a record's metadata field stands for: none where it is empty or corrupt.
pub open spec fn metadata_of(field: Seq<u8>) -> Option<Seq<u8>> {
    if field.len() > 0 && json_valid(field) {
        Some(field)
    } else {
        None
    }
}

/// Reads a metadata field: JSON text, or nothing where it is empty or corrupt.
pub fn metadata_from_bytes(field: &[u8]) -> (r: Option<Vec<u8>>)
    ensures
        match r {
            Some(m) => metadata_of(field@) == Some(m@),
            None => metadata_of(field@) is None,
        },
{
    if field.len() == 0 {
        return None;
    }
    checked_metadata(field, is_json(field))
}

/// The metadata of a field that is not empty, given whether it is a JSON text.
pub fn checked_metadata(field: &[u8], valid: bool) -> (r: Option<Vec<u8>>)
    ensures
        match r {
            Some(m) => valid && m@ == field@,
            None => !valid,
        },
{
    if valid {
        Some(bytes::to_owned(field))
    } else {
        None
    }
}

/// The value field, the metadata field and the flags of a record.
pub open spec fn record_fields(b: Seq<u8>) -> std::result::Result<
    (Seq<u8>, Seq<u8>, u8),
    EngineError,
> {
    let h = header_at(b);
    let key_end = HEADER_LEN + h.key_size;
    let val_end = key_end + h.val_size;
    let end = HEADER_LEN + body_size(h);
    if b.len() < HEADER_LEN {
        Err(EngineError::BadRecord { offset: 0, reason: "short header" })
    } else if b.len() < end {
        Err(
            EngineError::BadRecord {
                offset: 0,
                reason: "record bytes shorter than declared sizes",
            },
        )
    } else if crc64(b.subrange(8, end)) != h.crc {
        Err(EngineError::CrcMismatch { offset: 0 })
    } else {
        Ok((b.subrange(key_end, val_end), b.subrange(val_end, end), h.flags))
    }
}

/// Takes a record apart, once its checksum holds: `(value_field, metadata, flags)`. For
/// value-separated records the value field is the 16-byte content hash, not the value.
pub fn extract_value_meta(record: &[u8]) -> (r: Result<(Vec<u8>, Vec<u8>, u8)>)
    ensures
        match r {
            Ok((v, m, f)) => record_fields(record@) == Ok::<(Seq<u8>, Seq<u8>, u8), EngineError>(
                (v@, m@, f),
            ),
            Err(e) => record_fields(record@) == Err::<(Seq<u8>, Seq<u8>, u8), EngineError>(e),
        },
{
    let hdr = match parse_header(record, 0) {
        Ok(h) => h,
        Err(e) => {
            return Err(e);
        },
    };
    if (record.len() as u64) < hdr.span() {
        return Err(
            EngineError::BadRecord {
                offset: 0,
                reason: "record bytes shorter than declared sizes",
            },
        );
    }
    let end: usize = hdr.record_len();
    let key_end: usize = HEADER_LEN + hdr.key_size as usize;
    let val_end: usize = key_end + hdr.val_size as usize;
    let head = vstd::slice::slice_subrange(record, 0, HEADER_LEN);
    let body = vstd::slice::slice_subrange(record, HEADER_LEN, end);
    assert(head@.skip(8) + body@ =~= record@.subrange(8, end as int));
    match verify_crc(&hdr, head, body, 0) {
        Ok(()) => {},
        Err(e) => {
            return Err(e);
        },
    }
    Ok((bytes::cut(record, key_end, val_end), bytes::cut(record, val_end, end), hdr.flags))
}

/// What a record gives: the value itself, or the blob that holds it.
pub enum Fetched {
    Inline { value: Vec<u8>, metadata: Vec<u8> },
    Blob { hash: ContentHash, metadata: Vec<u8> },
}

/// What a `Fetched` says.
#[verifier::ext_equal]
pub enum FetchedView {
    Inline { value: Seq<u8>, metadata: Seq<u8> },
    Blob { hash: ContentHash, metadata: Seq<u8> },
}

impl View for Fetched {
    type V = FetchedView;

    open spec fn view(&self) -> FetchedView {
        match *self {
            Fetched::Inline { value, metadata } => FetchedView::Inline {
                value: value@,
                metadata: metadata@,
            },
            Fetched::Blob { hash, metadata } => FetchedView::Blob { hash, metadata: metadata@ },
        }
    }
}

/// What a record gives.
pub open spec fn fetched(b: Seq<u8>) -> std::result::Result<FetchedView, EngineError> {
    match record_fields(b) {
        Err(e) => Err(e),
        Ok((value, metadata, flags)) => if flags & VALUE_SEP == 0 {
            Ok(FetchedView::Inline { value, metadata })
        } else if value.len() != 16 {
            Err(
                EngineError::BadRecord {
                    offset: 0,
                    reason: "value-separated record's value field is not a 16-byte hash",
                },
            )
        } else {
            Ok(FetchedView::Blob { hash: hash_of(value), metadata })
        },
    }
}

/// Single-record read: the value of a record, or the blob to read it from.
pub fn read_value(record: &[u8]) -> (r: Result<Fetched>)
    ensures
        match r {
            Ok(f) => fetched(record@) == Ok::<FetchedView, EngineError>(f@),
            Err(e) => fetched(record@) == Err::<FetchedView, EngineError>(e),
        },
{
    let (value, metadata, flags) = match extract_value_meta(record) {
        Ok(f) => f,
        Err(e) => {
            return Err(e);
        },
    };
    if flags & VALUE_SEP == 0 {
        return Ok(Fetched::Inline { value, metadata });
    }
    if value.len() != 16 {
        return Err(
            EngineError::BadRecord {
                offset: 0,
                reason: "value-separated record's value field is not a 16-byte hash",
            },
        );
    }
    let hash = hash_at(value.as_slice(), 0);
    proof {
        assert(value@.subrange(0, 16) =~= value@);
        lemma_hash_of(hash);
    }
    Ok(Fetched::Blob { hash, metadata })
}

/// Checks a blob against the content hash that the record points at — parity with the CRC check
/// that inline values get on every read.
pub fn deref(hash: &ContentHash, blob: Vec<u8>) -> (r: Result<Vec<u8>>)
    ensures
        content(blob@) == *hash ==> r == Ok::<Vec<u8>, EngineError>(blob),
        content(blob@) != *hash ==> r == Err::<Vec<u8>, EngineError>(
            EngineError::BadRecord {
                offset: 0,
                reason: "value-separated blob content hash mismatch (corruption)",
            },
        ),
{
    let actual = content_hash(blob.as_slice());
    if same_hash(&actual, hash) {
        Ok(blob)
    } else {
        Err(
            EngineError::BadRecord {
                offset: 0,
                reason: "value-separated blob content hash mismatch (corruption)",
            },
        )
    }
}

/// Whether two content hashes are the same.
pub fn same_hash(a: &ContentHash, b: &ContentHash) -> (r: bool)
    ensures
        r == (*a == *b),
{
    let same = bytes::same(a.as_slice(), b.as_slice());
    proof {
        if a@ == b@ {
            assert(*a =~= *b);
        }
    }
    same
}

/// A record that was read for a bulk read, and the blob that it points at, if it points at one.
pub struct Miss {
    /// Which of the keys asked for it belongs to.
    pub slot: usize,
    pub record: Result<Vec<u8>>,
    pub blob: Option<Result<Vec<u8>>>,
}

/// What a bulk read gives for one record: value and metadata.
pub open spec fn miss_result(m: Miss) -> std::result::Result<(Seq<u8>, Seq<u8>), EngineError> {
    match m.record {
        Err(e) => Err(e),
        Ok(b) => match fetched(b@) {
            Err(e) => Err(e),
            Ok(FetchedView::Inline { value, metadata }) => Ok((value, metadata)),
            Ok(FetchedView::Blob { hash, metadata }) => match m.blob {
                None => Err(EngineError::Io { reason: "blob was not read" }),
                Some(Err(e)) => Err(e),
                Some(Ok(blob)) => if content(blob@) == hash {
                    Ok((blob@, metadata))
                } else {
                    Err(
                        EngineError::BadRecord {
                            offset: 0,
                            reason: "value-separated blob content hash mismatch (corruption)",
                        },
                    )
                },
            },
        },
    }
}

/// The blob that a record points at, if it points at one.
pub fn blob_wanted(record: &[u8]) -> (r: Option<ContentHash>)
    ensures
        r == (match fetched(record@) {
            Ok(FetchedView::Blob { hash, .. }) => Some(hash),
            _ => None,
        }),
{
    match read_value(record) {
        Ok(Fetched::Blob { hash, .. }) => Some(hash),
        _ => None,
    }
}

fn read_miss(m: Miss) -> (r: Result<(Vec<u8>, Vec<u8>)>)
    ensures
        match r {
            Ok((v, meta)) => miss_result(m) == Ok::<(Seq<u8>, Seq<u8>), EngineError>(
                (v@, meta@),
            ),
            Err(e) => miss_result(m) == Err::<(Seq<u8>, Seq<u8>), EngineError>(e),
        },
{
    let record = match m.record {
        Ok(b) => b,
        Err(e) => {
            return Err(e);
        },
    };
    match read_value(record.as_slice()) {
        Err(e) => Err(e),
        Ok(Fetched::Inline { value, metadata }) => Ok((value, metadata)),
        Ok(Fetched::Blob { hash, metadata }) => match m.blob {
            None => Err(EngineError::Io { reason: "blob was not read" }),
            Some(Err(e)) => Err(e),
            Some(Ok(blob)) => match deref(&hash, blob) {
                Ok(value) => Ok((value, metadata)),
                Err(e) => Err(e),
            },
        },
    }
}

/// The record at `i` is the first that cannot be read, and `e` says why.
pub open spec fn fails_first(misses: Seq<Miss>, i: int, e: EngineError) -> bool {
    &&& 0 <= i < misses.len()
    &&& miss_result(misses[i]) == Err::<(Seq<u8>, Seq<u8>), EngineError>(e)
    &&& forall|j: int| 0 <= j < i ==> miss_result(#[trigger] misses[j]) is Ok
}

/// Bulk read: the value and the metadata of each record, in order, each with its slot. The first
/// record that cannot be read fails the whole.
pub fn bulk_read(misses: Vec<Miss>) -> (r: Result<Vec<(usize, Vec<u8>, Vec<u8>)>>)
    ensures
        match r {
            Ok(out) => out@.len() == misses@.len() && forall|i: int|
                0 <= i < out@.len() ==> (#[trigger] out@[i]).0 == misses@[i].slot && miss_result(
                    misses@[i],
                ) == Ok::<(Seq<u8>, Seq<u8>), EngineError>((out@[i].1@, out@[i].2@)),
            Err(e) => exists|i: int| #[trigger] fails_first(misses@, i, e),
        },
{
    let ghost all = misses@;
    let n: usize = misses.len();
    let mut left = misses;
    let mut rest: Vec<Miss> = Vec::new();
    while left.len() > 0
        invariant
            left@.len() + rest@.len() == all.len(),
            forall|j: int| 0 <= j < left@.len() ==> left@[j] == all[j],
            forall|j: int| 0 <= j < rest@.len() ==> rest@[j] == all[all.len() - 1 - j],
        decreases left@.len(),
    {
        if let Some(m) = left.pop() {
            rest.push(m);
        }
    }
    let mut out: Vec<(usize, Vec<u8>, Vec<u8>)> = Vec::new();
    let mut i: usize = 0;
    while i < n
        invariant
            i <= n,
            n == all.len(),
            all == misses@,
            rest@.len() == n - i,
            forall|j: int| 0 <= j < n - i ==> rest@[j] == all[n - 1 - j],
            out@.len() == i,
            forall|j: int|
                0 <= j < i ==> (#[trigger] out@[j]).0 == all[j].slot && miss_result(all[j])
                    == Ok::<(Seq<u8>, Seq<u8>), EngineError>((out@[j].1@, out@[j].2@)),
        decreases n - i,
    {
        match rest.pop() {
            Some(m) => {
                assert(m == all[i as int]);
                let slot: usize = m.slot;
                match read_miss(m) {
                    Ok((value, metadata)) => {
                        out.push((slot, value, metadata));
                    },
                    Err(e) => {
                        proof {
                            assert forall|j: int| 0 <= j < i implies miss_result(
                                #[trigger] all[j],
                            ) is Ok by {
                                assert(out@[j].0 == all[j].slot);
                            }
                            assert(fails_first(all, i as int, e));
                        }
                        return Err(e);
                    },
                }
            },
            None => {},
        }
        i = i + 1;
    }
    Ok(out)
}

/// A live key that a new subscriber is to hear of.
pub struct Current {
    pub key: Vec<u8>,
    pub entry: IndexEntry,
    pub expires_at_ms: Option<u64>,
}

/// The live keys that pass the filter, with their entries and expiries, in the order of the items.
pub open spec fn current(
    items: Seq<(Vec<u8>, IndexEntry)>,
    idx: IndexView,
    filter: KeyFilter<'_>,
    now: u64,
) -> Seq<(Seq<u8>, IndexEntry, Option<u64>)>
    decreases items.len(),
{
    if items.len() == 0 {
        seq![]
    } else {
        let head = current(items.drop_last(), idx, filter, now);
        let (k, e) = items.last();
        if filter.accepts(k@) && !idx.expired(k@, now) {
            head.push((k@, e, idx.ttl_of(k@)))
        } else {
            head
        }
    }
}

/// The `Current`s, each by what it says.
pub open spec fn current_views(v: Seq<Current>) -> Seq<(Seq<u8>, IndexEntry, Option<u64>)> {
    v.map_values(|c: Current| (c.key@, c.entry, c.expires_at_ms))
}

/// The event by which a new subscriber hears of a live key.
pub open spec fn current_event(c: Current, value: Seq<u8>, meta: Seq<u8>) -> EventView {
    EventView::SetKey {
        key: c.key@,
        value,
        metadata: metadata_of(meta),
        expires_at_ms: c.expires_at_ms,
        revision: 0,
    }
}

impl NamespaceLog {
    /// Finds the file that holds a record.
    pub fn read_record(&self, entry: &IndexEntry) -> (r: Result<u32>)
        ensures
            self@.file(entry.file_id) is Some ==> r == Ok::<u32, EngineError>(entry.file_id),
            self@.file(entry.file_id) is None ==> r == Err::<u32, EngineError>(
                EngineError::BadRecord {
                    offset: entry.record_offset,
                    reason: "file_id not found",
                },
            ),
    {
        match self.locate_file(entry.file_id) {
            Some(_) => Ok(entry.file_id),
            None => Err(
                EngineError::BadRecord {
                    offset: entry.record_offset,
                    reason: "file_id not found",
                },
            ),
        }
    }

    /// The live keys that pass `filter`, ascending. The caller reads the record of each.
    pub fn current_entries(&self, filter: &KeyFilter<'_>, now: u64) -> (r: Vec<Current>)
        requires
            self.wf(),
        ensures
            current_views(r@) == current(self.index.items(), self@.index, *filter, now),
    {
        let items = self.index.iter();
        let mut out: Vec<Current> = Vec::new();
        let mut i: usize = 0;
        assert(items@.take(0) =~= seq![]);
        assert(current_views(out@) =~= seq![]);
        while i < items.len()
            invariant
                self.wf(),
                items@ == self.index.items(),
                i <= items@.len(),
                current_views(out@) == current(
                    items@.take(i as int),
                    self@.index,
                    *filter,
                    now,
                ),
            decreases items@.len() - i,
        {
            assert(items@.take(i + 1).drop_last() =~= items@.take(i as int));
            let key = items[i].0.as_slice();
            let ghost was = out@;
            if filter.matches(key) && !self.index.is_expired(key, now) {
                let c = Current {
                    key: bytes::to_owned(key),
                    entry: items[i].1,
                    expires_at_ms: self.index.ttl(key),
                };
                out.push(c);
                assert(current_views(out@) =~= current_views(was).push(
                    (c.key@, c.entry, c.expires_at_ms),
                ));
            }
            i = i + 1;
        }
        assert(items@.take(i as int) =~= items@);
        out
    }
}

/// Where the item stands from which the `i`th of the current keys comes.
proof fn lemma_current_comes_from(
    items: Seq<(Vec<u8>, IndexEntry)>,
    idx: IndexView,
    filter: KeyFilter<'_>,
    now: u64,
    i: int,
) -> (j: int)
    requires
        0 <= i < current(items, idx, filter, now).len(),
    ensures
        0 <= j < items.len(),
        current(items, idx, filter, now)[i] == (
            items[j].0@,
            items[j].1,
            idx.ttl_of(items[j].0@),
        ),
        filter.accepts(items[j].0@),
        !idx.expired(items[j].0@, now),
    decreases items.len(),
{
    let rest = items.drop_last();
    if i < current(rest, idx, filter, now).len() {
        lemma_current_comes_from(rest, idx, filter, now, i)
    } else {
        items.len() - 1
    }
}

/// Where the `j`th item stands among the current keys, which it is one of.
proof fn lemma_current_has(
    items: Seq<(Vec<u8>, IndexEntry)>,
    idx: IndexView,
    filter: KeyFilter<'_>,
    now: u64,
    j: int,
) -> (i: int)
    requires
        0 <= j < items.len(),
        filter.accepts(items[j].0@),
        !idx.expired(items[j].0@, now),
    ensures
        0 <= i < current(items, idx, filter, now).len(),
        current(items, idx, filter, now)[i].0 == items[j].0@,
    decreases items.len(),
{
    let rest = items.drop_last();
    if j < rest.len() {
        lemma_current_has(rest, idx, filter, now, j)
    } else {
        current(rest, idx, filter, now).len() as int
    }
}

/// The current keys are ascending, as the items are.
proof fn lemma_current_ascends(
    items: Seq<(Vec<u8>, IndexEntry)>,
    idx: IndexView,
    filter: KeyFilter<'_>,
    now: u64,
    i: int,
    j: int,
)
    requires
        sorted(items),
        0 <= i < j < current(items, idx, filter, now).len(),
    ensures
        before(current(items, idx, filter, now)[i].0, current(items, idx, filter, now)[j].0),
    decreases items.len(),
{
    let rest = items.drop_last();
    let head = current(rest, idx, filter, now);
    if j < head.len() {
        lemma_current_ascends(rest, idx, filter, now, i, j);
    } else {
        let n = lemma_current_comes_from(rest, idx, filter, now, i);
        assert(before(items[n].0@, items[items.len() - 1].0@));
    }
}

/// A new subscriber hears of exactly the live keys it asked for: a key is listed where the index
/// has it, its expiry has not come, and it is the key asked for, or begins with the prefix asked
/// for. Each is listed once, in ascending order, with its entry and its expiry.
pub proof fn lemma_current_keys(log: NamespaceLog, filter: KeyFilter<'_>, now: u64)
    requires
        log.wf(),
    ensures
        ({
            let out = current(log.index.items(), log@.index, filter, now);
            let keys = Seq::new(out.len(), |i: int| out[i].0);
            let map = log@.index.map;
            let ttl = log@.index.ttl;
            &&& forall|k: Seq<u8>| #[trigger]
                keys.contains(k) <==> map.dom().contains(k) && (ttl.dom().contains(k) ==> ttl[k]
                    > now) && match filter {
                    KeyFilter::Exact(e) => k == e@,
                    KeyFilter::Prefix(p) => p@.len() <= k.len() && forall|i: int|
                        0 <= i < p@.len() ==> k[i] == #[trigger] p@[i],
                }
            &&& keys.no_duplicates()
            &&& forall|i: int, j: int|
                0 <= i < j < keys.len() ==> before(#[trigger] keys[i], #[trigger] keys[j])
            &&& forall|i: int|
                0 <= i < out.len() ==> (#[trigger] out[i]).1 == map[out[i].0] && out[i].2 == (
                if ttl.dom().contains(out[i].0) {
                    Some(ttl[out[i].0])
                } else {
                    None
                })
        }),
{
    log.index.lemma_items();
    let items = log.index.items();
    let idx = log@.index;
    let out = current(items, idx, filter, now);
    let keys = Seq::new(out.len(), |i: int| out[i].0);
    assert forall|k: Seq<u8>| #[trigger] keys.contains(k) <==> (idx.map.dom().contains(k) && (
    idx.ttl.dom().contains(k) ==> idx.ttl[k] > now) && match filter {
        KeyFilter::Exact(e) => k == e@,
        KeyFilter::Prefix(p) => p@.len() <= k.len() && forall|i: int|
            0 <= i < p@.len() ==> k[i] == #[trigger] p@[i],
    }) by {
        if let KeyFilter::Prefix(p) = filter {
            lemma_prefix_bytes(k, p@);
        }
        if keys.contains(k) {
            let i = choose|i: int| 0 <= i < keys.len() && keys[i] == k;
            let j = lemma_current_comes_from(items, idx, filter, now, i);
            assert(items[j].0@ == k);
        }
        if idx.map.dom().contains(k) && !idx.expired(k, now) && filter.accepts(k) {
            let j = choose|j: int| 0 <= j < items.len() && (#[trigger] items[j]).0@ == k;
            let i = lemma_current_has(items, idx, filter, now, j);
            assert(keys[i] == k);
        }
    }
    assert forall|i: int, j: int| 0 <= i < j < keys.len() implies before(
        #[trigger] keys[i],
        #[trigger] keys[j],
    ) by {
        lemma_current_ascends(items, idx, filter, now, i, j);
    }
    assert forall|i: int, j: int|
        0 <= i < keys.len() && 0 <= j < keys.len() && i != j implies keys[i] != keys[j] by {
        lemma_before_irreflexive(keys[i]);
    }
    assert forall|i: int| 0 <= i < out.len() implies (#[trigger] out[i]).1 == idx.map[out[i].0]
        && out[i].2 == idx.ttl_of(out[i].0) by {
        let j = lemma_current_comes_from(items, idx, filter, now, i);
        assert(items[j].0@ == out[i].0);
    }
}

/// The events for the live keys whose values were read.
pub fn current_events(live: &Vec<Current>, reads: Vec<(usize, Vec<u8>, Vec<u8>)>) -> (r: Vec<
    WatchEvent,
>)
    requires
        forall|i: int| 0 <= i < reads@.len() ==> (#[trigger] reads@[i]).0 < live@.len(),
    ensures
        r@.len() == reads@.len(),
        forall|i: int|
            0 <= i < r@.len() ==> (#[trigger] r@[i])@ == current_event(
                live@[reads@[i].0 as int],
                reads@[i].1@,
                reads@[i].2@,
            ),
{
    let mut out: Vec<WatchEvent> = Vec::new();
    let mut i: usize = 0;
    while i < reads.len()
        invariant
            forall|j: int| 0 <= j < reads@.len() ==> (#[trigger] reads@[j]).0 < live@.len(),
            i <= reads@.len(),
            out@.len() == i,
            forall|j: int|
                0 <= j < i ==> (#[trigger] out@[j])@ == current_event(
                    live@[reads@[j].0 as int],
                    reads@[j].1@,
                    reads@[j].2@,
                ),
        decreases reads@.len() - i,
    {
        let slot: usize = reads[i].0;
        assert(reads@[i as int].0 < live@.len());
        let c = &live[slot];
        out.push(
            WatchEvent::SetKey {
                key: bytes::to_owned(c.key.as_slice()),
                value: bytes::to_owned(reads[i].1.as_slice()),
                metadata: metadata_from_bytes(reads[i].2.as_slice()),
                expires_at_ms: c.expires_at_ms,
                revision: 0,
            },
        );
        i = i + 1;
    }
    out
}

/// A change found in a log. Where the value is a blob, the blob is still to be read: the event's
/// value is its content hash until then.
pub struct Replayed {
    pub event: WatchEvent,
    pub blob: Option<ContentHash>,
}

/// The changes, each by what it says.
pub open spec fn replayed_views(v: Seq<Replayed>) -> Seq<(EventView, Option<ContentHash>)> {
    v.map_values(|r: Replayed| (r.event@, r.blob))
}

/// The change that a record stands for, if it is newer than `since` and passes the filter. A
/// change of expiry is none, nor is a separated value without a 16-byte hash.
pub open spec fn change_of(
    h: RecordHeader,
    body: Seq<u8>,
    filter: KeyFilter<'_>,
    since: u64,
) -> Option<(EventView, Option<ContentHash>)> {
    let key = body.take(h.key_size as int);
    let value = body.subrange(h.key_size as int, h.key_size + h.val_size);
    let meta = body.subrange(h.key_size + h.val_size, body_size(h));
    if h.tstamp_ms <= since || h.flags & TTL_UPDATE != 0 || !filter.accepts(key) {
        None
    } else if h.flags & TOMBSTONE != 0 {
        Some((EventView::Del { key, revision: h.tstamp_ms }, None))
    } else if h.flags & VALUE_SEP != 0 && h.val_size != 16 {
        None
    } else {
        Some(
            (
                EventView::SetKey {
                    key,
                    value,
                    metadata: metadata_of(meta),
                    expires_at_ms: expiry_of(h),
                    revision: h.tstamp_ms,
                },
                if h.flags & VALUE_SEP != 0 {
                    Some(hash_of(value))
                } else {
                    None
                },
            ),
        )
    }
}

/// A scan can go on at `at`: a header stands there, and the record ends
/// within the records' part of the file; where the record is to be decoded, its body stands there
/// too.
pub open spec fn scannable(image: Seq<u8>, end: int, at: int, since: u64) -> bool {
    let h = header_at(image.skip(at));
    &&& 0 <= at
    &&& at + HEADER_LEN <= end
    &&& at + HEADER_LEN <= image.len()
    &&& at + HEADER_LEN + body_size(h) <= end
    &&& (h.tstamp_ms > since && h.flags & TTL_UPDATE == 0) ==> at + HEADER_LEN + body_size(h)
        <= image.len()
}

/// The changes in a file from `at` on that are newer than `since` and pass the filter, and where
/// the scan ends. The records end at `end`.
pub open spec fn scan_from(
    image: Seq<u8>,
    end: int,
    filter: KeyFilter<'_>,
    since: u64,
    at: int,
) -> (Seq<(EventView, Option<ContentHash>)>, int)
    decreases end - at,
{
    if scannable(image, end, at, since) {
        let h = header_at(image.skip(at));
        let next = at + HEADER_LEN + body_size(h);
        let (rest, stop) = scan_from(image, end, filter, since, next);
        match change_of(h, image.subrange(at + HEADER_LEN, next), filter, since) {
            Some(c) => (seq![c] + rest, stop),
            None => (rest, stop),
        }
    } else {
        (seq![], at)
    }
}

/// Makes the event of a record that is to be decoded.
fn replay_record(hdr: &RecordHeader, body: &[u8], filter: &KeyFilter<'_>, since: u64) -> (r: Option<
    Replayed,
>)
    requires
        body@.len() == body_size(*hdr),
    ensures
        match r {
            Some(c) => change_of(*hdr, body@, *filter, since) == Some((c.event@, c.blob)),
            None => change_of(*hdr, body@, *filter, since) is None,
        },
{
    if hdr.tstamp_ms <= since || hdr.flags & TTL_UPDATE != 0 {
        return None;
    }
    let n: usize = body.len();
    let key_end: usize = hdr.key_size as usize;
    assert(key_end + hdr.val_size <= n);
    let val_end: usize = key_end + hdr.val_size as usize;
    let key = vstd::slice::slice_subrange(body, 0, key_end);
    assert(key@ =~= body@.take(hdr.key_size as int));
    if !filter.matches(key) {
        return None;
    }
    if hdr.flags & TOMBSTONE != 0 {
        return Some(
            Replayed {
                event: WatchEvent::Del { key: bytes::to_owned(key), revision: hdr.tstamp_ms },
                blob: None,
            },
        );
    }
    let blob = if hdr.flags & VALUE_SEP != 0 {
        if hdr.val_size != 16 {
            return None;
        }
        let h = hash_at(body, key_end);
        proof {
            lemma_hash_of(h);
        }
        Some(h)
    } else {
        None
    };
    let expires_at_ms = if hdr.flags & NO_EXPIRY != 0 {
        None
    } else {
        Some(hdr.expires_at_ms)
    };
    let meta = vstd::slice::slice_subrange(body, val_end, n);
    Some(
        Replayed {
            event: WatchEvent::SetKey {
                key: bytes::to_owned(key),
                value: bytes::cut(body, key_end, val_end),
                metadata: metadata_from_bytes(meta),
                expires_at_ms,
                revision: hdr.tstamp_ms,
            },
            blob,
        },
    )
}

/// Scans one log file for changes newer than `since_revision` that pass `filter`, and appends
/// them to `events`. The file's records end at `end_offset`.
pub fn scan_file_records(
    image: &[u8],
    end_offset: u64,
    filter: &KeyFilter<'_>,
    since_revision: u64,
    events: &mut Vec<Replayed>,
)
    ensures
        replayed_views(final(events)@) == replayed_views(old(events)@) + scan_from(
            image@,
            end_offset as int,
            *filter,
            since_revision,
            0,
        ).0,
{
    let end: u64 = if end_offset < image.len() as u64 {
        end_offset
    } else {
        image.len() as u64
    };
    let mut at: u64 = 0;
    let ghost start = replayed_views(events@);
    let ghost want = scan_from(image@, end_offset as int, *filter, since_revision, 0).0;
    loop
        invariant
            end == (if end_offset < image@.len() {
                end_offset as int
            } else {
                image@.len() as int
            }),
            at <= end_offset,
            replayed_views(events@) + scan_from(
                image@,
                end_offset as int,
                *filter,
                since_revision,
                at as int,
            ).0 == start + want,
        ensures
            replayed_views(events@) == start + want,
        decreases end_offset - at,
    {
        let ghost was = replayed_views(events@);
        if at > end || end - at < HEADER_LEN as u64 {
            assert(was + seq![] =~= was);
            break;
        }
        let from: usize = at as usize;
        let rest = vstd::slice::slice_subrange(image, from, image.len());
        assert(rest@ =~= image@.skip(at as int));
        let hdr = match parse_header(rest, at) {
            Ok(h) => h,
            Err(_) => {
                assert(was + seq![] =~= was);
                break;
            },
        };
        // Guard against garbage sizes that would produce an absurd record length.
        if hdr.span() > end_offset - at {
            assert(was + seq![] =~= was);
            break;
        }
        // Only decode records newer than the client's last-seen revision, skip TTL-only updates.
        if hdr.tstamp_ms > since_revision && hdr.flags & TTL_UPDATE == 0 {
            if hdr.span() > rest.len() as u64 {
                assert(was + seq![] =~= was);
                break;
            }
            let body = vstd::slice::slice_subrange(rest, HEADER_LEN, hdr.record_len());
            assert(body@ =~= image@.subrange(
                at + HEADER_LEN,
                at + HEADER_LEN + body_size(hdr),
            ));
            if let Some(c) = replay_record(&hdr, body, filter, since_revision) {
                let ghost item = (c.event@, c.blob);
                let ghost before = events@;
                events.push(c);
                proof {
                    let tail = scan_from(
                        image@,
                        end_offset as int,
                        *filter,
                        since_revision,
                        at + HEADER_LEN + body_size(hdr),
                    ).0;
                    assert(replayed_views(events@) =~= replayed_views(before).push(item));
                    assert(was.push(item) + tail =~= was + (seq![item] + tail));
                }
            }
        }
        at = at + hdr.span();
    }
}

/// The changes in several files, one after the other.
pub open spec fn scan_all(
    files: Seq<(Vec<u8>, u64)>,
    filter: KeyFilter<'_>,
    since: u64,
) -> Seq<(EventView, Option<ContentHash>)>
    decreases files.len(),
{
    if files.len() == 0 {
        seq![]
    } else {
        scan_all(files.drop_last(), filter, since) + scan_from(
            files.last().0@,
            files.last().1 as int,
            filter,
            since,
            0,
        ).0
    }
}

/// Scans all log files for changes newer than `since_revision` that pass `filter`. Each file comes
/// with its contents and where its records end: the sealed files ascending by id, then the active
/// one. Used for catch-up replay on reconnect.
pub fn scan_since(files: &Vec<(Vec<u8>, u64)>, filter: &KeyFilter<'_>, since_revision: u64) -> (r:
    Vec<Replayed>)
    ensures
        replayed_views(r@) == scan_all(files@, *filter, since_revision),
{
    let mut events: Vec<Replayed> = Vec::new();
    let mut i: usize = 0;
    assert(files@.take(0) =~= seq![]);
    assert(replayed_views(events@) =~= seq![]);
    while i < files.len()
        invariant
            i <= files@.len(),
            replayed_views(events@) == scan_all(files@.take(i as int), *filter, since_revision),
        decreases files@.len() - i,
    {
        scan_file_records(
            files[i].0.as_slice(),
            files[i].1,
            filter,
            since_revision,
            &mut events,
        );
        assert(files@.take(i + 1).drop_last() =~= files@.take(i as int));
        i = i + 1;
    }
    assert(files@.take(i as int) =~= files@);
    events
}

/// A change with its value, given the blob that was read for it: a blob that could not be read or
/// does not have the hash leaves no change.
pub open spec fn resolved_one(c: (EventView, Option<ContentHash>), blob: Option<Seq<u8>>) -> Option<
    EventView,
> {
    match c.1 {
        None => Some(c.0),
        Some(h) => match blob {
            Some(b) => if content(b) == h {
                match c.0 {
                    EventView::SetKey { key, value, metadata, expires_at_ms, revision } => Some(
                        EventView::SetKey { key, value: b, metadata, expires_at_ms, revision },
                    ),
                    EventView::Del { .. } => None,
                }
            } else {
                None
            },
            None => None,
        },
    }
}

/// The bytes of an optional blob.
pub open spec fn blob_view(b: Option<Vec<u8>>) -> Option<Seq<u8>> {
    match b {
        Some(b) => Some(b@),
        None => None,
    }
}

/// The changes with their values, in order.
pub open spec fn resolved(
    changes: Seq<(EventView, Option<ContentHash>)>,
    blobs: Seq<Option<Vec<u8>>>,
) -> Seq<EventView>
    decreases changes.len(),
{
    if changes.len() == 0 {
        seq![]
    } else {
        let head = resolved(changes.drop_last(), blobs);
        match resolved_one(changes.last(), blob_view(blobs[changes.len() - 1])) {
            Some(e) => head.push(e),
            None => head,
        }
    }
}

/// `sorted` with `e` behind all events whose revision is not higher.
pub open spec fn placed(sorted: Seq<EventView>, e: EventView) -> Seq<EventView>
    decreases sorted.len(),
{
    if sorted.len() == 0 || sorted.last().rev() <= e.rev() {
        sorted.push(e)
    } else {
        placed(sorted.drop_last(), e).push(sorted.last())
    }
}

/// The events in the order of their revisions; those with the same revision keep their order.
pub open spec fn chronological(events: Seq<EventView>) -> Seq<EventView>
    decreases events.len(),
{
    if events.len() == 0 {
        seq![]
    } else {
        placed(chronological(events.drop_last()), events.last())
    }
}

/// The revisions ascend.
pub open spec fn revisions_ascend(events: Seq<EventView>) -> bool {
    forall|i: int, j: int|
        0 <= i <= j < events.len() ==> (#[trigger] events[i]).rev() <= (#[trigger] events[j]).rev()
}

proof fn lemma_placed(sorted: Seq<EventView>, e: EventView)
    requires
        revisions_ascend(sorted),
    ensures
        revisions_ascend(placed(sorted, e)),
        placed(sorted, e).to_multiset() == sorted.to_multiset().insert(e),
        placed(sorted, e).len() == sorted.len() + 1,
        sorted.len() > 0 && sorted.last().rev() > e.rev() ==> placed(sorted, e).last()
            == sorted.last(),
    decreases sorted.len(),
{
    broadcast use vstd::seq_lib::group_to_multiset_ensures;

    if sorted.len() == 0 || sorted.last().rev() <= e.rev() {
    } else {
        let head = sorted.drop_last();
        lemma_placed(head, e);
        let p = placed(head, e);
        assert(sorted =~= head.push(sorted.last()));
        assert(p.to_multiset().insert(sorted.last()) =~= head.to_multiset().insert(
            sorted.last(),
        ).insert(e));
        assert forall|i: int, j: int| 0 <= i <= j < p.len() + 1 implies (#[trigger] p.push(
            sorted.last(),
        )[i]).rev() <= (#[trigger] p.push(sorted.last())[j]).rev() by {
            lemma_placed_bound(head, e, sorted.last().rev());
        }
    }
}

proof fn lemma_placed_bound(sorted: Seq<EventView>, e: EventView, max: u64)
    requires
        forall|i: int| 0 <= i < sorted.len() ==> (#[trigger] sorted[i]).rev() <= max,
        e.rev() <= max,
    ensures
        forall|i: int| 0 <= i < placed(sorted, e).len() ==> (#[trigger] placed(sorted, e)[i]).rev()
            <= max,
    decreases sorted.len(),
{
    if sorted.len() == 0 || sorted.last().rev() <= e.rev() {
    } else {
        let head = sorted.drop_last();
        assert forall|i: int| 0 <= i < head.len() implies (#[trigger] head[i]).rev() <= max by {
            assert(head[i] == sorted[i]);
        }
        lemma_placed_bound(head, e, max);
        assert(sorted[sorted.len() - 1].rev() <= max);
        assert forall|i: int| 0 <= i < placed(sorted, e).len() implies (
        #[trigger] placed(sorted, e)[i]).rev() <= max by {
            if i < placed(head, e).len() {
                assert(placed(sorted, e)[i] == placed(head, e)[i]);
            }
        }
    }
}

/// A watcher that catches up sees the changes in the order of their revisions, and no change is
/// lost or added by the ordering.
pub proof fn lemma_chronological(events: Seq<EventView>)
    ensures
        revisions_ascend(chronological(events)),
        chronological(events).to_multiset() == events.to_multiset(),
    decreases events.len(),
{
    broadcast use vstd::seq_lib::group_to_multiset_ensures;

    if events.len() > 0 {
        lemma_chronological(events.drop_last());
        lemma_placed(chronological(events.drop_last()), events.last());
        assert(events =~= events.drop_last().push(events.last()));
    }
}

/// Ends a catch-up: puts the blobs that were read in place, drops the changes whose blob could not
/// be read or is corrupt, and orders the rest by revision.
pub fn finish_scan(changes: Vec<Replayed>, blobs: &Vec<Option<Vec<u8>>>) -> (r: Vec<WatchEvent>)
    requires
        blobs@.len() == changes@.len(),
    ensures
        event_views(r@) == chronological(resolved(replayed_views(changes@), blobs@)),
{
    let mut sorted: Vec<WatchEvent> = Vec::new();
    let ghost all = replayed_views(changes@);
    let mut i: usize = 0;
    assert(all.take(0) =~= seq![]);
    assert(event_views(sorted@) =~= seq![]);
    while i < changes.len()
        invariant
            i <= changes@.len(),
            blobs@.len() == changes@.len(),
            all == replayed_views(changes@),
            event_views(sorted@) == chronological(resolved(all.take(i as int), blobs@)),
        decreases changes@.len() - i,
    {
        proof {
            assert(all.take(i + 1).drop_last() =~= all.take(i as int));
            assert(all.take(i + 1).last() == (changes@[i as int].event@, changes@[i as int].blob));
        }
        let ghost head = resolved(all.take(i as int), blobs@);
        match resolve_one(&changes[i], &blobs[i]) {
            Some(e) => {
                proof {
                    assert(head.push(e@).drop_last() =~= head);
                }
                place_event(&mut sorted, e);
            },
            None => {},
        }
        i = i + 1;
    }
    assert(all.take(i as int) =~= all);
    sorted
}

fn resolve_one(c: &Replayed, blob: &Option<Vec<u8>>) -> (r: Option<WatchEvent>)
    ensures
        match r {
            Some(e) => resolved_one((c.event@, c.blob), blob_view(*blob)) == Some(e@),
            None => resolved_one((c.event@, c.blob), blob_view(*blob)) is None,
        },
{
    match &c.blob {
        None => Some(c.event.copy()),
        Some(h) => match blob {
            None => None,
            Some(b) => {
                let actual = content_hash(b.as_slice());
                if !same_hash(&actual, h) {
                    return None;
                }
                match &c.event {
                    WatchEvent::SetKey { key, metadata, expires_at_ms, revision, .. } => {
                        let metadata = match metadata {
                            Some(m) => Some(bytes::to_owned(m.as_slice())),
                            None => None,
                        };
                        Some(
                            WatchEvent::SetKey {
                                key: bytes::to_owned(key.as_slice()),
                                value: bytes::to_owned(b.as_slice()),
                                metadata,
                                expires_at_ms: *expires_at_ms,
                                revision: *revision,
                            },
                        )
                    },
                    WatchEvent::Del { .. } => None,
                }
            },
        },
    }
}

proof fn lemma_placed_at(sorted: Seq<EventView>, e: EventView, at: int)
    requires
        0 <= at <= sorted.len(),
        forall|i: int| at <= i < sorted.len() ==> (#[trigger] sorted[i]).rev() > e.rev(),
        at > 0 ==> sorted[at - 1].rev() <= e.rev(),
    ensures
        placed(sorted, e) == sorted.insert(at, e),
    decreases sorted.len() - at,
{
    if at == sorted.len() {
        assert(sorted.insert(at, e) =~= sorted.push(e));
    } else {
        let head = sorted.drop_last();
        lemma_placed_at(head, e, at);
        assert(head.insert(at, e).push(sorted.last()) =~= sorted.insert(at, e));
    }
}

/// Puts an event behind all events whose revision is not higher.
fn place_event(sorted: &mut Vec<WatchEvent>, e: WatchEvent)
    ensures
        event_views(final(sorted)@) == placed(event_views(old(sorted)@), e@),
{
    let rev: u64 = e.revision();
    let mut at: usize = sorted.len();
    let ghost views = event_views(sorted@);
    while at > 0 && sorted[at - 1].revision() > rev
        invariant
            at <= sorted@.len(),
            views == event_views(sorted@),
            forall|i: int| at <= i < views.len() ==> (#[trigger] views[i]).rev() > rev,
        decreases at,
    {
        assert(views[at - 1] == sorted@[at - 1]@);
        at = at - 1;
    }
    proof {
        if at > 0 {
            assert(views[at - 1] == sorted@[at - 1]@);
        }
        lemma_placed_at(views, e@, at as int);
    }
    sorted.insert(at, e);
    assert(event_views(sorted@) =~= views.insert(at as int, e@));
}

/// A record gives back what it was written with: the value, the metadata and the flags.
pub proof fn lemma_record_reads_back(
    tstamp_ms: u64,
    flags: u8,
    expires_at_ms: u64,
    key: Seq<u8>,
    value: Seq<u8>,
    metadata: Seq<u8>,
)
    requires
        fits(key, value, metadata),
    ensures
        record_fields(record_bytes(tstamp_ms, flags, expires_at_ms, key, value, metadata)) == Ok::<
            (Seq<u8>, Seq<u8>, u8),
            EngineError,
        >((value, metadata, flags)),
{
    let b = record_bytes(tstamp_ms, flags, expires_at_ms, key, value, metadata);
    lemma_record_round_trip(tstamp_ms, flags, expires_at_ms, key, value, metadata);
    assert(b.subrange(8, b.len() as int) =~= b.skip(8));
    let body = b.skip(HEADER_LEN as int);
    let ke = HEADER_LEN + key.len() as int;
    let ve = ke + value.len() as int;
    assert(b.subrange(ke, ve) =~= body.subrange(
        key.len() as int,
        key.len() as int + value.len() as int,
    ));
    assert(body.subrange(key.len() as int, key.len() as int + value.len() as int) =~= value);
    assert(b.subrange(ve, b.len() as int) =~= metadata) by {
        assert(b.subrange(ve, b.len() as int) =~= body.subrange(
            key.len() as int + value.len() as int,
            body.len() as int,
        ));
        assert(body.subrange(key.len() as int + value.len() as int, body.len() as int)
            =~= metadata);
    }
}

/// A catch-up sees a record that was appended behind whole records: the changes before it, then
/// its own.
pub proof fn lemma_scan_append(
    image: Seq<u8>,
    rec: Seq<u8>,
    filter: KeyFilter<'_>,
    since: u64,
    at: int,
)
    requires
        0 <= at <= image.len(),
        scan_from(image, image.len() as int, filter, since, at).1 == image.len(),
        rec.len() >= HEADER_LEN,
        rec.len() == HEADER_LEN + body_size(header_at(rec)),
    ensures
        scan_from(image + rec, (image.len() + rec.len()) as int, filter, since, at) == (
            scan_from(image, image.len() as int, filter, since, at).0 + match change_of(
                header_at(rec),
                rec.skip(HEADER_LEN as int),
                filter,
                since,
            ) {
                Some(c) => seq![c],
                None => seq![],
            },
            (image.len() + rec.len()) as int,
        ),
    decreases image.len() - at,
{
    let long = image + rec;
    let end = image.len() as int;
    let far = long.len() as int;
    if at == image.len() {
        reveal_with_fuel(scan_from, 2);
        assert(long.skip(at) =~= rec);
        assert(!scannable(image, end, at, since));
        assert(scannable(long, far, at, since));
        assert(!scannable(long, far, far, since));
        assert(long.subrange(at + HEADER_LEN, far) =~= rec.skip(HEADER_LEN as int));
        let c = change_of(header_at(rec), rec.skip(HEADER_LEN as int), filter, since);
        if let Some(c) = c {
            assert(seq![c] + Seq::<(EventView, Option<ContentHash>)>::empty() =~= Seq::<
                (EventView, Option<ContentHash>),
            >::empty() + seq![c]);
        } else {
            assert(Seq::<(EventView, Option<ContentHash>)>::empty() + Seq::<
                (EventView, Option<ContentHash>),
            >::empty() =~= Seq::<(EventView, Option<ContentHash>)>::empty());
        }
    } else {
        assert(scannable(image, end, at, since));
        let a = image.skip(at);
        let b = long.skip(at);
        assert(a.subrange(0, 8) =~= b.subrange(0, 8));
        assert(a.subrange(8, 16) =~= b.subrange(8, 16));
        assert(a.subrange(17, 25) =~= b.subrange(17, 25));
        assert(a.subrange(25, 29) =~= b.subrange(25, 29));
        assert(a.subrange(29, 33) =~= b.subrange(29, 33));
        assert(a.subrange(33, 37) =~= b.subrange(33, 37));
        let h = header_at(a);
        assert(header_at(b) == h);
        let next = at + HEADER_LEN + body_size(h);
        lemma_scan_append(image, rec, filter, since, next);
        assert(image.subrange(at + HEADER_LEN, next) =~= long.subrange(at + HEADER_LEN, next));
        let tail = match change_of(
            header_at(rec),
            rec.skip(HEADER_LEN as int),
            filter,
            since,
        ) {
            Some(c) => seq![c],
            None => seq![],
        };
        let rest = scan_from(image, end, filter, since, next).0;
        if let Some(c) = change_of(h, image.subrange(at + HEADER_LEN, next), filter, since) {
            assert(seq![c] + (rest + tail) =~= (seq![c] + rest) + tail);
        }
    }
}

} // verus!
