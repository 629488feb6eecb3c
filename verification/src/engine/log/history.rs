//! What a history of writes leaves: in the index, on disk after a crash, for a reader and for a
//! watcher that catches up.
use vstd::prelude::*;

use crate::engine::error::EngineError;
use crate::engine::log::file::{entry_fits, footer_bytes, footer_result, lemma_footer_round_trip};
use crate::engine::log::index::{has_key, lookup, IndexEntry, IndexView};
use crate::engine::log::read::{
    change_of, fetched, lemma_record_reads_back, lemma_scan_append, metadata_of, resolved_one,
    scan_from, FetchedView,
};
use crate::engine::log::reclaim::{active_footer, footer_entry, footer_of};
use crate::engine::log::record::flags::TOMBSTONE;
use crate::engine::log::record::{
    body_size, fits, header_at, lemma_record_round_trip, record_bytes, HEADER_LEN,
};
use crate::engine::log::recover::{
    expiry_of, gathered, lemma_hash_of, lemma_swept_append, lemma_torn_tail, lemma_written_is_good,
    marked, records_of, replay, swept, with_footer, Recovered,
};
use crate::engine::log::write::{
    expiry_field, live_revision, lemma_put_flag_bits, lemma_put_replays, lemma_record_len,
    lemma_tombstone_replays, lemma_ttl_replays, put_bytes, put_flags, put_index, staged, stored,
    ttl_flags, PendingPut, WriteCondition,
};
use crate::engine::log::{LogView, NamespaceLog};
use crate::engine::value_store::{content, ContentHash};
use crate::engine::watch::{EventView, KeyFilter};

verus! {

/// A write.
pub enum Write {
    Put { p: PendingPut, value: Seq<u8>, metadata: Seq<u8> },
    Tombstone { key: Seq<u8>, tstamp: u64 },
    Ttl { key: Seq<u8>, tstamp: u64, expires_at_ms: Option<u64> },
}

impl Write {
    pub open spec fn key(self) -> Seq<u8> {
        match self {
            Write::Put { p, .. } => p.key@,
            Write::Tombstone { key, .. } => key,
            Write::Ttl { key, .. } => key,
        }
    }

    /// The write's record.
    pub open spec fn record(self) -> Seq<u8> {
        match self {
            Write::Put { p, value, metadata } => put_bytes(p, value, metadata),
            Write::Tombstone { key, tstamp } => record_bytes(
                tstamp,
                TOMBSTONE,
                0,
                key,
                seq![],
                seq![],
            ),
            Write::Ttl { key, tstamp, expires_at_ms } => record_bytes(
                tstamp,
                ttl_flags(expires_at_ms),
                expiry_field(expires_at_ms),
                key,
                seq![],
                seq![],
            ),
        }
    }

    /// The write's record can be made, and its flags say what it is.
    pub open spec fn valid(self) -> bool {
        match self {
            Write::Put { p, value, metadata } => fits(p.key@, stored(p.hash, value), metadata)
                && p.flags == put_flags(p.expires_at_ms, p.hash is Some),
            Write::Tombstone { key, .. } => fits(key, seq![], seq![]),
            Write::Ttl { key, .. } => fits(key, seq![], seq![]),
        }
    }

    /// The index that the write leaves, once its record stands at `offset`.
    pub open spec fn on_index(self, idx: IndexView, file_id: u32, offset: u64) -> IndexView {
        match self {
            Write::Put { p, value, metadata } => put_index(
                idx,
                p,
                file_id,
                offset,
                self.record().len() as u32,
            ),
            Write::Tombstone { key, .. } => idx.remove(key),
            Write::Ttl { key, expires_at_ms, .. } => idx.set_ttl(key, expires_at_ms),
        }
    }

    /// A change of expiry is made only to a key that is there.
    pub open spec fn applies(self, idx: IndexView) -> bool {
        self is Ttl ==> idx.map.dom().contains(self.key())
    }

    /// The change that a watcher is to hear of, with the blob that holds its value.
    pub open spec fn change(self) -> Option<(EventView, Option<ContentHash>)> {
        match self {
            Write::Put { p, value, metadata } => Some(
                (
                    EventView::SetKey {
                        key: p.key@,
                        value: stored(p.hash, value),
                        metadata: metadata_of(metadata),
                        expires_at_ms: p.expires_at_ms,
                        revision: p.tstamp,
                    },
                    p.hash,
                ),
            ),
            Write::Tombstone { key, tstamp } => Some(
                (EventView::Del { key, revision: tstamp }, None),
            ),
            Write::Ttl { .. } => None,
        }
    }
}

/// The file that the writes leave: their records, one behind the other.
pub open spec fn file_of(writes: Seq<Write>) -> Seq<u8>
    decreases writes.len(),
{
    if writes.len() == 0 {
        seq![]
    } else {
        file_of(writes.drop_last()) + writes.last().record()
    }
}

/// The index that the writes leave, one after the other.
pub open spec fn index_of(writes: Seq<Write>, file_id: u32, start: IndexView) -> IndexView
    decreases writes.len(),
{
    if writes.len() == 0 {
        start
    } else {
        writes.last().on_index(
            index_of(writes.drop_last(), file_id, start),
            file_id,
            file_of(writes.drop_last()).len() as u64,
        )
    }
}

/// Every write is valid, and applies to what those before it left.
pub open spec fn happens(writes: Seq<Write>, file_id: u32, start: IndexView) -> bool
    decreases writes.len(),
{
    writes.len() > 0 ==> {
        &&& happens(writes.drop_last(), file_id, start)
        &&& writes.last().valid()
        &&& writes.last().applies(index_of(writes.drop_last(), file_id, start))
    }
}

/// Recovery finds what the writes left: the replay of the file that a history of committed writes
/// wrote gives the index that they left in memory, and uses up the whole file.
pub proof fn lemma_history_recovers(writes: Seq<Write>, file_id: u32, start: IndexView)
    requires
        happens(writes, file_id, start),
    ensures
        replay(file_of(writes), file_id, 0, start) == (
            index_of(writes, file_id, start),
            file_of(writes).len() as int,
        ),
    decreases writes.len(),
{
    if writes.len() == 0 {
        assert(file_of(writes).skip(0).len() == 0);
    } else {
        let head = writes.drop_last();
        let image = file_of(head);
        lemma_history_recovers(head, file_id, start);
        match writes.last() {
            Write::Put { p, value, metadata } => {
                lemma_put_replays(image, file_id, start, p, value, metadata);
            },
            Write::Tombstone { key, tstamp } => {
                lemma_tombstone_replays(image, file_id, start, tstamp, key);
            },
            Write::Ttl { key, tstamp, expires_at_ms } => {
                lemma_ttl_replays(image, file_id, start, tstamp, key, expires_at_ms);
            },
        }
    }
}

proof fn lemma_record_is_good(w: Write)
    requires
        w.valid(),
    ensures
        crate::engine::log::recover::good_at(w.record(), 0),
        crate::engine::log::recover::span_at(w.record(), 0) == w.record().len(),
{
    match w {
        Write::Put { p, value, metadata } => {
            lemma_written_is_good(
                p.tstamp,
                p.flags,
                expiry_field(p.expires_at_ms),
                p.key@,
                stored(p.hash, value),
                metadata,
            );
        },
        Write::Tombstone { key, tstamp } => {
            lemma_written_is_good(tstamp, TOMBSTONE, 0, key, seq![], seq![]);
        },
        Write::Ttl { key, tstamp, expires_at_ms } => {
            lemma_written_is_good(
                tstamp,
                ttl_flags(expires_at_ms),
                expiry_field(expires_at_ms),
                key,
                seq![],
                seq![],
            );
        },
    }
}

/// A crash leaves a prefix of the history: whatever byte of the file the crash cuts it at, the
/// replay gives the index that the first `k` writes left, those whose records are whole, and ends
/// where their records end.
pub proof fn lemma_crash_keeps_a_prefix(
    writes: Seq<Write>,
    file_id: u32,
    start: IndexView,
    cut: int,
) -> (k: int)
    requires
        happens(writes, file_id, start),
        0 <= cut <= file_of(writes).len(),
    ensures
        0 <= k <= writes.len(),
        file_of(writes.take(k)).len() <= cut,
        k < writes.len() ==> cut < file_of(writes.take(k + 1)).len(),
        cut == file_of(writes).len() ==> k == writes.len(),
        replay(file_of(writes).take(cut), file_id, 0, start) == (
            index_of(writes.take(k), file_id, start),
            file_of(writes.take(k)).len() as int,
        ),
    decreases writes.len(),
{
    let n = writes.len() as int;
    assert(writes.take(n) =~= writes);
    if cut == file_of(writes).len() {
        lemma_history_recovers(writes, file_id, start);
        assert(file_of(writes).take(cut) =~= file_of(writes));
        n
    } else {
        let head = writes.drop_last();
        let image = file_of(head);
        let rec = writes.last().record();
        assert(writes.take(n - 1) =~= head);
        if cut >= image.len() {
            lemma_history_recovers(head, file_id, start);
            lemma_record_is_good(writes.last());
            lemma_torn_tail(image, rec, cut - image.len(), file_id, 0, start);
            assert(file_of(writes).take(cut) =~= image + rec.take(cut - image.len()));
            n - 1
        } else {
            let k = lemma_crash_keeps_a_prefix(head, file_id, start, cut);
            assert(file_of(writes).take(cut) =~= image.take(cut));
            assert(head.take(k) =~= writes.take(k));
            assert(head.take(k + 1) =~= writes.take(k + 1));
            k
        }
    }
}

/// A read gives back what the put wrote: the value and the metadata, or, where the value is
/// separated, the content hash of the value.
pub proof fn lemma_put_reads_back(
    s: LogView,
    key: Seq<u8>,
    value: Seq<u8>,
    metadata: Seq<u8>,
    expires_at_ms: Option<u64>,
    clock: u64,
    p: PendingPut,
    t: LogView,
)
    requires
        staged(s, key, value, expires_at_ms, clock, p, t),
        fits(key, stored(p.hash, value), metadata),
    ensures
        fetched(put_bytes(p, value, metadata)) == Ok::<FetchedView, EngineError>(
            if value.len() >= s.config.value_sep_threshold {
                FetchedView::Blob { hash: content(value), metadata }
            } else {
                FetchedView::Inline { value, metadata }
            },
        ),
{
    let exp = expiry_field(p.expires_at_ms);
    lemma_record_reads_back(p.tstamp, p.flags, exp, p.key@, stored(p.hash, value), metadata);
    lemma_put_flag_bits(p.expires_at_ms is None, p.hash is Some);
    if let Some(h) = p.hash {
        lemma_hash_of(h);
    }
}

/// Behind a committed put, the key's index entry locates the put's record in a file that holds it
/// at the put's place, so a read of the key gives back what was written.
pub proof fn lemma_get_finds_put(
    idx: IndexView,
    p: PendingPut,
    value: Seq<u8>,
    metadata: Seq<u8>,
    image: Seq<u8>,
    file_id: u32,
    offset: u64,
)
    requires
        fits(p.key@, stored(p.hash, value), metadata),
        offset + put_bytes(p, value, metadata).len() <= image.len(),
        image.subrange(offset as int, offset + put_bytes(p, value, metadata).len()) == put_bytes(
            p,
            value,
            metadata,
        ),
    ensures
        ({
            let after = put_index(
                idx,
                p,
                file_id,
                offset,
                put_bytes(p, value, metadata).len() as u32,
            );
            let e: IndexEntry = after.map[p.key@];
            &&& after.map.dom().contains(p.key@)
            &&& e.file_id == file_id
            &&& e.tstamp_ms == p.tstamp
            &&& after.ttl_of(p.key@) == p.expires_at_ms
            &&& after.valsep_of(p.key@) == p.hash
            &&& image.subrange(
                e.record_offset as int,
                e.record_offset + e.record_size,
            ) == put_bytes(p, value, metadata)
        }),
{
    lemma_record_len(
        p.tstamp,
        p.flags,
        expiry_field(p.expires_at_ms),
        p.key@,
        stored(p.hash, value),
        metadata,
    );
}

/// The changes of the writes that are newer than `since` and pass the filter, in order.
pub open spec fn changes_of(writes: Seq<Write>, filter: KeyFilter<'_>, since: u64) -> Seq<
    (EventView, Option<ContentHash>),
>
    decreases writes.len(),
{
    if writes.len() == 0 {
        seq![]
    } else {
        let head = changes_of(writes.drop_last(), filter, since);
        match writes.last().change() {
            Some(c) => if c.0.rev() > since && filter.accepts(writes.last().key()) {
                head.push(c)
            } else {
                head
            },
            None => head,
        }
    }
}

/// A catch-up misses nothing: the scan of the file that a history of writes wrote gives the change
/// of every put and every deletion that is newer than `since` and passes the filter, in order, and
/// no other.
pub proof fn lemma_catch_up_misses_nothing(
    writes: Seq<Write>,
    filter: KeyFilter<'_>,
    since: u64,
)
    requires
        forall|i: int| 0 <= i < writes.len() ==> (#[trigger] writes[i]).valid(),
    ensures
        scan_from(file_of(writes), file_of(writes).len() as int, filter, since, 0) == (
            changes_of(writes, filter, since),
            file_of(writes).len() as int,
        ),
    decreases writes.len(),
{
    if writes.len() > 0 {
        let head = writes.drop_last();
        assert forall|i: int| 0 <= i < head.len() implies (#[trigger] head[i]).valid() by {
            assert(head[i] == writes[i]);
        }
        lemma_catch_up_misses_nothing(head, filter, since);
        let w = writes[writes.len() - 1];
        lemma_change_of_record(w, filter, since);
        lemma_scan_append(file_of(head), w.record(), filter, since, 0);
        let before = changes_of(head, filter, since);
        match change_of(
            header_at(w.record()),
            w.record().skip(HEADER_LEN as int),
            filter,
            since,
        ) {
            Some(c) => {
                assert(before + seq![c] =~= before.push(c));
            },
            None => {
                assert(before + Seq::<(EventView, Option<ContentHash>)>::empty() =~= before);
            },
        }
    }
}

proof fn lemma_change_of_record(w: Write, filter: KeyFilter<'_>, since: u64)
    requires
        w.valid(),
    ensures
        w.record().len() == HEADER_LEN + body_size(header_at(w.record())),
        change_of(header_at(w.record()), w.record().skip(HEADER_LEN as int), filter, since) == (
        match w.change() {
            Some(c) => if c.0.rev() > since && filter.accepts(w.key()) {
                Some(c)
            } else {
                None
            },
            None => None,
        }),
{
    let rec = w.record();
    let body = rec.skip(HEADER_LEN as int);
    let h = header_at(rec);
    match w {
        Write::Put { p, value, metadata } => {
            let field = stored(p.hash, value);
            lemma_record_round_trip(
                p.tstamp,
                p.flags,
                expiry_field(p.expires_at_ms),
                p.key@,
                field,
                metadata,
            );
            lemma_put_flag_bits(p.expires_at_ms is None, p.hash is Some);
            assert(body.take(h.key_size as int) =~= p.key@);
            assert(body.subrange(h.key_size as int, h.key_size + h.val_size) =~= field);
            assert(body.subrange(h.key_size + h.val_size, body_size(h)) =~= metadata);
            assert(expiry_of(h) == p.expires_at_ms);
            if let Some(g) = p.hash {
                lemma_hash_of(g);
            }
        },
        Write::Tombstone { key, tstamp } => {
            lemma_record_round_trip(tstamp, TOMBSTONE, 0, key, seq![], seq![]);
            assert(body.take(h.key_size as int) =~= key);
            assert(1u8 & 4u8 == 0 && 1u8 & 1u8 != 0) by (bit_vector);
        },
        Write::Ttl { key, tstamp, expires_at_ms } => {
            lemma_record_round_trip(
                tstamp,
                ttl_flags(expires_at_ms),
                expiry_field(expires_at_ms),
                key,
                seq![],
                seq![],
            );
            assert(4u8 & 4u8 != 0 && (4u8 | 2u8) & 4u8 != 0) by (bit_vector);
        },
    }
}

/// A watcher that catches up hears of the value itself: with the blob that the put wrote, the
/// change of a put carries the value, also where the record holds only its content hash.
pub proof fn lemma_watcher_sees_value(
    s: LogView,
    key: Seq<u8>,
    value: Seq<u8>,
    metadata: Seq<u8>,
    expires_at_ms: Option<u64>,
    clock: u64,
    p: PendingPut,
    t: LogView,
)
    requires
        staged(s, key, value, expires_at_ms, clock, p, t),
    ensures
        (Write::Put { p, value, metadata }).change() matches Some(c) && resolved_one(c, Some(value))
            == Some(
            EventView::SetKey {
                key,
                value,
                metadata: metadata_of(metadata),
                expires_at_ms,
                revision: p.tstamp,
            },
        ),
{
}

/// No key has a revision that was not given out yet.
pub open spec fn revisions_given(idx: IndexView, last: u64) -> bool {
    forall|k: Seq<u8>| #[trigger] idx.map.dom().contains(k) ==> idx.map[k].tstamp_ms <= last
}

/// A put takes a revision higher than every one before it, and its commit leaves no key with a
/// revision that was not given out yet.
pub proof fn lemma_put_takes_a_new_revision(
    s: LogView,
    key: Seq<u8>,
    value: Seq<u8>,
    expires_at_ms: Option<u64>,
    clock: u64,
    p: PendingPut,
    t: LogView,
    file_id: u32,
    offset: u64,
    size: u32,
)
    requires
        s.last_tstamp < u64::MAX,
        revisions_given(s.index, s.last_tstamp),
        staged(s, key, value, expires_at_ms, clock, p, t),
    ensures
        p.tstamp > s.last_tstamp,
        forall|k: Seq<u8>| #[trigger]
            s.index.map.dom().contains(k) ==> s.index.map[k].tstamp_ms < p.tstamp,
        t.last_tstamp == p.tstamp,
        revisions_given(put_index(t.index, p, file_id, offset, size), t.last_tstamp),
{
}

/// Compare-and-swap: of the writes that ask for one revision of a key, one can succeed. Behind its
/// commit the key does not have that revision any more, at whatever time one looks.
pub proof fn lemma_one_swap_per_revision(
    s: LogView,
    key: Seq<u8>,
    value: Seq<u8>,
    expires_at_ms: Option<u64>,
    revision: u64,
    now: u64,
    clock: u64,
    p: PendingPut,
    t: LogView,
    file_id: u32,
    offset: u64,
    size: u32,
    later: u64,
)
    requires
        s.last_tstamp < u64::MAX,
        revisions_given(s.index, s.last_tstamp),
        WriteCondition::Revision(revision).holds(live_revision(s.index, key, now)),
        staged(s, key, value, expires_at_ms, clock, p, t),
    ensures
        !WriteCondition::Revision(revision).holds(
            live_revision(put_index(t.index, p, file_id, offset, size), key, later),
        ),
{
}

/// Both indexes hold the same of a key.
pub open spec fn agree(a: IndexView, b: IndexView, k: Seq<u8>) -> bool {
    a.get(k) == b.get(k) && a.ttl_of(k) == b.ttl_of(k) && a.valsep_of(k) == b.valsep_of(k)
}

/// What the records of the file with this id say of the keys of earlier files leaves a key as the
/// index has it, or its record stands in that file.
pub open spec fn settled(
    before: IndexView,
    records: Seq<u8>,
    after: IndexView,
    file_id: u32,
    k: Seq<u8>,
) -> bool {
    agree(swept(before, records, 0), after, k) || after.map.dom().contains(k)
        && after.map[k].file_id == file_id
}

/// The records of the file with this id account for every key that does not stand in it.
pub open spec fn settles(
    before: IndexView,
    records: Seq<u8>,
    after: IndexView,
    file_id: u32,
) -> bool {
    forall|k: Seq<u8>| #[trigger] settled(before, records, after, file_id, k)
}

proof fn lemma_marks_of_record(w: Write, idx: IndexView)
    requires
        w.valid(),
    ensures
        marked(idx, header_at(w.record()), w.record().skip(HEADER_LEN as int)) == (match w {
            Write::Put { .. } => idx,
            Write::Tombstone { key, .. } => idx.remove(key),
            Write::Ttl { key, expires_at_ms, .. } => if idx.map.dom().contains(key) {
                idx.set_ttl(key, expires_at_ms)
            } else {
                idx
            },
        }),
{
    let rec = w.record();
    let body = rec.skip(HEADER_LEN as int);
    assert(body.take(header_at(rec).key_size as int) =~= w.key()) by {
        lemma_key_of_record(w);
    }
    match w {
        Write::Put { p, value, metadata } => {
            lemma_record_round_trip(
                p.tstamp,
                p.flags,
                expiry_field(p.expires_at_ms),
                p.key@,
                stored(p.hash, value),
                metadata,
            );
            lemma_put_flag_bits(p.expires_at_ms is None, p.hash is Some);
        },
        Write::Tombstone { key, tstamp } => {
            lemma_record_round_trip(tstamp, TOMBSTONE, 0, key, seq![], seq![]);
            assert(1u8 & 1u8 != 0) by (bit_vector);
        },
        Write::Ttl { key, tstamp, expires_at_ms } => {
            lemma_record_round_trip(
                tstamp,
                ttl_flags(expires_at_ms),
                expiry_field(expires_at_ms),
                key,
                seq![],
                seq![],
            );
            assert(4u8 & 1u8 == 0 && 4u8 & 4u8 != 0 && 4u8 & 2u8 == 0) by (bit_vector);
            assert((4u8 | 2u8) & 1u8 == 0 && (4u8 | 2u8) & 4u8 != 0 && (4u8 | 2u8) & 2u8 != 0)
                by (bit_vector);
        },
    }
}

proof fn lemma_key_of_record(w: Write)
    requires
        w.valid(),
    ensures
        header_at(w.record()).key_size == w.key().len(),
        w.record().skip(HEADER_LEN as int).take(w.key().len() as int) == w.key(),
{
    match w {
        Write::Put { p, value, metadata } => {
            lemma_record_round_trip(
                p.tstamp,
                p.flags,
                expiry_field(p.expires_at_ms),
                p.key@,
                stored(p.hash, value),
                metadata,
            );
        },
        Write::Tombstone { key, tstamp } => {
            lemma_record_round_trip(tstamp, TOMBSTONE, 0, key, seq![], seq![]);
        },
        Write::Ttl { key, tstamp, expires_at_ms } => {
            lemma_record_round_trip(
                tstamp,
                ttl_flags(expires_at_ms),
                expiry_field(expires_at_ms),
                key,
                seq![],
                seq![],
            );
        },
    }
    assert(w.record().skip(HEADER_LEN as int).take(w.key().len() as int) =~= w.key());
}

proof fn lemma_key_after(writes: Seq<Write>, file_id: u32, before: IndexView, k: Seq<u8>)
    requires
        happens(writes, file_id, before),
    ensures
        settled(before, file_of(writes), index_of(writes, file_id, before), file_id, k),
    decreases writes.len(),
{
    if writes.len() > 0 {
        let head = writes.drop_last();
        let w = writes.last();
        lemma_key_after(head, file_id, before, k);
        lemma_history_recovers(head, file_id, before);
        lemma_record_is_good(w);
        lemma_swept_append(file_of(head), w.record(), file_id, 0, before, before);
        lemma_marks_of_record(w, swept(before, file_of(head), 0));
    } else {
        assert(file_of(writes).skip(0).len() == 0);
    }
}

/// The writes to one file leave every key with its record in that file, or as its records say of
/// the keys of earlier files.
pub proof fn lemma_writes_settle(writes: Seq<Write>, file_id: u32, before: IndexView)
    requires
        happens(writes, file_id, before),
    ensures
        settles(before, file_of(writes), index_of(writes, file_id, before), file_id),
{
    assert forall|k: Seq<u8>| #[trigger]
        settled(before, file_of(writes), index_of(writes, file_id, before), file_id, k) by {
        lemma_key_after(writes, file_id, before, k);
    }
}

/// What a footer gives for a key: the index entry of a key whose record stands in the file, and
/// what was there before for any other.
proof fn lemma_footer_gives(
    before: IndexView,
    items: Seq<(Vec<u8>, IndexEntry)>,
    idx: IndexView,
    file_id: u32,
    k: Seq<u8>,
)
    requires
        forall|i: int| 0 <= i < items.len() ==> idx.get((#[trigger] items[i]).0@) == Some(items[i].1),
    ensures
        ({
            let got = with_footer(before, file_id, footer_of(items, idx, file_id));
            if has_key(items, k) && idx.map[k].file_id == file_id {
                agree(got, idx, k)
            } else {
                agree(got, before, k)
            }
        }),
    decreases items.len(),
{
    if items.len() > 0 {
        let head = items.drop_last();
        assert forall|i: int| 0 <= i < head.len() implies idx.get((#[trigger] head[i]).0@) == Some(
            head[i].1,
        ) by {
            assert(head[i] == items[i]);
        }
        lemma_footer_gives(before, head, idx, file_id, k);
        let last = items[items.len() - 1];
        assert(idx.get(last.0@) == Some(last.1));
        if has_key(head, k) {
            let i = choose|i: int| 0 <= i < head.len() && (#[trigger] head[i]).0@ == k;
            assert(items[i].0@ == k);
        }
        if has_key(items, k) && !has_key(head, k) {
            let i = choose|i: int| 0 <= i < items.len() && (#[trigger] items[i]).0@ == k;
            if i < head.len() {
                assert(head[i].0@ == k);
            }
        }
        assert(last == items.last());
        let footer = footer_of(items, idx, file_id);
        let got = with_footer(before, file_id, footer);
        let inner = with_footer(before, file_id, footer_of(head, idx, file_id));
        if last.1.file_id == file_id {
            assert(footer.drop_last() =~= footer_of(head, idx, file_id));
            let key = last.0@;
            let e = footer.last();
            assert(e == footer_entry(key, last.1, idx.ttl_of(key), idx.valsep_of(key)));
            if let Some(h) = idx.valsep_of(key) {
                lemma_hash_of(h);
            }
            assert(got == inner.insert(key, last.1, idx.ttl_of(key)).set_valsep(
                key,
                idx.valsep_of(key),
            ));
            if key == k {
                assert(items[items.len() - 1].0@ == k);
                assert(has_key(items, k));
                assert(agree(got, idx, k));
            } else {
                assert(agree(got, inner, k));
            }
        } else {
            assert(got == inner);
            if last.0@ == k {
                assert(idx.map[k] == last.1);
            }
        }
    } else {
        assert(!has_key(items, k));
    }
}

/// A clean seal recovers what was running: where recovery has, from the files before, the index
/// that was running when the active file began, the sealed active file brings it to the index that
/// was running when it was sealed. The footer speaks of the keys whose records stand in the file;
/// its tombstones and expiry updates account for those of earlier files.
pub proof fn lemma_seal_recovers(log: NamespaceLog, before: Recovered, records: Seq<u8>)
    requires
        log.wf(),
        settles(before.index, records, log@.index, log@.active.file_id),
        keys_fit(log@.index),
        records.len() + footer_bytes(active_footer(log)).len() <= u64::MAX,
    ensures
        before.with_sealed(
            log@.active.file_id,
            records + footer_bytes(active_footer(log)),
        ).index == log@.index,
{
    let id = log@.active.file_id;
    let idx = log@.index;
    let items = log.index.items();
    let footer = active_footer(log);
    log.index.lemma_items();
    assert forall|i: int| 0 <= i < items.len() implies idx.get((#[trigger] items[i]).0@) == Some(
        items[i].1,
    ) by {
        assert(idx.map.dom().contains(items[i].0@));
    }
    lemma_footer_fits(items, idx, id);
    lemma_footer_round_trip(records, footer);
    let image = records + footer_bytes(footer);
    assert(records_of(image) =~= records);
    let base = swept(before.index, records, 0);
    let got = with_footer(base, id, footer);
    assert forall|k: Seq<u8>| agree(got, idx, k) by {
        lemma_footer_gives(base, items, idx, id, k);
        assert(settled(before.index, records, idx, id, k));
        if idx.map.dom().contains(k) {
            assert(has_key(items, k));
        } else if has_key(items, k) {
            let i = choose|i: int| 0 <= i < items.len() && (#[trigger] items[i]).0@ == k;
            assert(idx.map.dom().contains(items[i].0@));
        }
    }
    assert forall|k: Seq<u8>| #[trigger] lookup(got.map, k) == lookup(idx.map, k) by {
        assert(agree(got, idx, k));
    }
    assert forall|k: Seq<u8>| #[trigger] lookup(got.ttl, k) == lookup(idx.ttl, k) by {
        assert(agree(got, idx, k));
    }
    assert forall|k: Seq<u8>| #[trigger] lookup(got.valsep, k) == lookup(idx.valsep, k) by {
        assert(agree(got, idx, k));
    }
    lemma_same_lookups(got.map, idx.map);
    lemma_same_lookups(got.ttl, idx.ttl);
    lemma_same_lookups(got.valsep, idx.valsep);
}

/// A file that was sealed: the log when it was, and the file's records.
pub struct Sealing {
    pub log: NamespaceLog,
    pub records: Seq<u8>,
}

impl Sealing {
    /// The file as it stands on disk.
    pub open spec fn image(self) -> Seq<u8> {
        self.records + footer_bytes(active_footer(self.log))
    }

    /// The file was sealed where `before` was the index when it began.
    pub open spec fn follows(self, before: IndexView) -> bool {
        &&& self.log.wf()
        &&& settles(before, self.records, self.log@.index, self.log@.active.file_id)
        &&& keys_fit(self.log@.index)
        &&& self.image().len() <= u64::MAX
    }
}

/// The index that was running when the last of the files was sealed; before the first, what
/// recovery finds in the files that were there.
pub open spec fn running(base: Seq<(u32, Vec<u8>)>, sealings: Seq<Sealing>) -> IndexView {
    if sealings.len() == 0 {
        gathered(base).index
    } else {
        sealings.last().log@.index
    }
}

/// The files were sealed one after the other, behind those that were there: none where the log was
/// empty, or what a merge left.
pub open spec fn sealed_in_turn(base: Seq<(u32, Vec<u8>)>, sealings: Seq<Sealing>) -> bool
    decreases sealings.len(),
{
    sealings.len() > 0 ==> sealed_in_turn(base, sealings.drop_last()) && sealings.last().follows(
        running(base, sealings.drop_last()),
    )
}

/// These are the files that were there, and behind them those that the seals left.
pub open spec fn left_by(
    files: Seq<(u32, Vec<u8>)>,
    base: Seq<(u32, Vec<u8>)>,
    sealings: Seq<Sealing>,
) -> bool {
    let n = base.len() as int;
    &&& files.len() == n + sealings.len()
    &&& files.take(n) == base
    &&& forall|i: int|
        0 <= i < sealings.len() ==> files[n + i].0 == (#[trigger] sealings[i]).log@.active.file_id
            && files[n + i].1@ == sealings[i].image()
}

/// A clean shutdown recovers what was running: files that were sealed one after the other open
/// with the index that was running when the last one was sealed.
pub proof fn lemma_sealed_files_recover(
    base: Seq<(u32, Vec<u8>)>,
    sealings: Seq<Sealing>,
    files: Seq<(u32, Vec<u8>)>,
)
    requires
        sealed_in_turn(base, sealings),
        left_by(files, base, sealings),
    ensures
        gathered(files).index == running(base, sealings),
    decreases sealings.len(),
{
    let n = base.len() as int;
    if sealings.len() > 0 {
        let head = files.drop_last();
        let rest = sealings.drop_last();
        let m = rest.len() as int;
        assert(head.take(n) =~= base);
        assert forall|i: int| 0 <= i < rest.len() implies head[n + i].0 == (
        #[trigger] rest[i]).log@.active.file_id && head[n + i].1@ == rest[i].image() by {
            assert(rest[i] == sealings[i]);
        }
        lemma_sealed_files_recover(base, rest, head);
        assert(sealings[m] == sealings.last());
        assert(files.last() == files[n + m]);
        lemma_seal_recovers(sealings.last().log, gathered(head), sealings.last().records);
    } else {
        assert(files =~= base);
    }
}

/// A crash loses at most the end of the last file: files that were sealed one after the other,
/// and behind them the active file with the records of the writes since, cut at any byte, open with
/// the index that the first `k` of those writes left, which are all of them where nothing is cut
/// off. What is left of the active file is not to end in what reads as a footer: such a file is
/// taken for a sealed one.
pub proof fn lemma_files_recover(
    base: Seq<(u32, Vec<u8>)>,
    sealings: Seq<Sealing>,
    writes: Seq<Write>,
    cut: int,
    files: Seq<(u32, Vec<u8>)>,
) -> (k: int)
    requires
        files.len() > 0,
        sealed_in_turn(base, sealings),
        left_by(files.drop_last(), base, sealings),
        happens(writes, files.last().0, running(base, sealings)),
        0 <= cut <= file_of(writes).len(),
        files.last().1@ == file_of(writes).take(cut),
        !(footer_result(files.last().1@) matches Ok(Some(_))),
    ensures
        0 <= k <= writes.len(),
        cut == file_of(writes).len() ==> k == writes.len(),
        file_of(writes.take(k)).len() <= cut,
        k < writes.len() ==> cut < file_of(writes.take(k + 1)).len(),
        gathered(files).index == index_of(writes.take(k), files.last().0, running(base, sealings)),
{
    lemma_sealed_files_recover(base, sealings, files.drop_last());
    lemma_crash_keeps_a_prefix(writes, files.last().0, running(base, sealings), cut)
}

/// The length of every key fits in 32 bits.
pub open spec fn keys_fit(idx: IndexView) -> bool {
    forall|k: Seq<u8>| #[trigger] idx.map.dom().contains(k) ==> k.len() <= u32::MAX
}

proof fn lemma_writes_keep_keys_fit(writes: Seq<Write>, file_id: u32, before: IndexView)
    requires
        happens(writes, file_id, before),
        keys_fit(before),
    ensures
        keys_fit(index_of(writes, file_id, before)),
    decreases writes.len(),
{
    if writes.len() > 0 {
        lemma_writes_keep_keys_fit(writes.drop_last(), file_id, before);
        let head = index_of(writes.drop_last(), file_id, before);
        let after = index_of(writes, file_id, before);
        assert forall|k: Seq<u8>| #[trigger] after.map.dom().contains(k) implies k.len()
            <= u32::MAX by {
            assert(k != writes.last().key() ==> head.map.dom().contains(k));
        }
    }
}

/// Each file holds the records of its own writes, and was sealed behind the last of them.
pub open spec fn written_in_turn(base: Seq<(u32, Vec<u8>)>, sealings: Seq<Sealing>, histories: Seq<Seq<Write>>) -> bool
    decreases sealings.len(),
{
    &&& sealings.len() == histories.len()
    &&& sealings.len() > 0 ==> {
        let s = sealings.last();
        let writes = histories.last();
        let before = running(base, sealings.drop_last());
        let id = s.log@.active.file_id;
        &&& written_in_turn(base, sealings.drop_last(), histories.drop_last())
        &&& s.log.wf()
        &&& happens(writes, id, before)
        &&& s.log@.index == index_of(writes, id, before)
        &&& s.records == file_of(writes)
        &&& s.image().len() <= u64::MAX
    }
}

proof fn lemma_written_is_sealed_in_turn(base: Seq<(u32, Vec<u8>)>, sealings: Seq<Sealing>, histories: Seq<Seq<Write>>)
    requires
        keys_fit(gathered(base).index),
        written_in_turn(base, sealings, histories),
    ensures
        sealed_in_turn(base, sealings),
        keys_fit(running(base, sealings)),
    decreases sealings.len(),
{
    if sealings.len() > 0 {
        lemma_written_is_sealed_in_turn(base, sealings.drop_last(), histories.drop_last());
        let before = running(base, sealings.drop_last());
        let id = sealings.last().log@.active.file_id;
        lemma_writes_settle(histories.last(), id, before);
        lemma_writes_keep_keys_fit(histories.last(), id, before);
    }
}

/// A log that is opened again holds what it held when it was left: whatever puts, deletions and
/// changes of expiry were made, file by file, with a seal behind each file, and then to the active
/// file, from an empty log on or from the files that a merge left, the files open with the index that was running, or, where a crash cut the active file, with
/// the index that its first `k` writes left. What is left of the active file does not end in what
/// reads as a footer: such a file is taken for a sealed one.
pub proof fn lemma_log_recovers(
    base: Seq<(u32, Vec<u8>)>,
    sealings: Seq<Sealing>,
    histories: Seq<Seq<Write>>,
    writes: Seq<Write>,
    cut: int,
    files: Seq<(u32, Vec<u8>)>,
) -> (k: int)
    requires
        files.len() > 0,
        keys_fit(gathered(base).index),
        written_in_turn(base, sealings, histories),
        left_by(files.drop_last(), base, sealings),
        happens(writes, files.last().0, running(base, sealings)),
        0 <= cut <= file_of(writes).len(),
        files.last().1@ == file_of(writes).take(cut),
        !(footer_result(files.last().1@) matches Ok(Some(_))),
    ensures
        0 <= k <= writes.len(),
        cut == file_of(writes).len() ==> k == writes.len(),
        file_of(writes.take(k)).len() <= cut,
        k < writes.len() ==> cut < file_of(writes.take(k + 1)).len(),
        gathered(files).index == index_of(writes.take(k), files.last().0, running(base, sealings)),
{
    lemma_written_is_sealed_in_turn(base, sealings, histories);
    lemma_files_recover(base, sealings, writes, cut, files)
}

/// A log that was shut down cleanly holds, once it is opened again, what it held then: whatever
/// puts, deletions and changes of expiry were made, file by file, with a seal behind each file.
pub proof fn lemma_sealed_log_recovers(
    base: Seq<(u32, Vec<u8>)>,
    sealings: Seq<Sealing>,
    histories: Seq<Seq<Write>>,
    files: Seq<(u32, Vec<u8>)>,
)
    requires
        keys_fit(gathered(base).index),
        written_in_turn(base, sealings, histories),
        left_by(files, base, sealings),
    ensures
        gathered(files).index == running(base, sealings),
{
    lemma_written_is_sealed_in_turn(base, sealings, histories);
    lemma_sealed_files_recover(base, sealings, files);
}

/// Maps that hold the same under every key are the same.
pub proof fn lemma_same_lookups<V>(a: Map<Seq<u8>, V>, b: Map<Seq<u8>, V>)
    requires
        forall|k: Seq<u8>| #[trigger] lookup(a, k) == lookup(b, k),
    ensures
        a == b,
{
    assert forall|k: Seq<u8>| #[trigger] a.dom().contains(k) <==> b.dom().contains(k) by {
        assert(lookup(a, k) == lookup(b, k));
    }
    assert forall|k: Seq<u8>| #[trigger] a.dom().contains(k) implies a[k] == b[k] by {
        assert(lookup(a, k) == lookup(b, k));
    }
    assert(a.dom() =~= b.dom());
    assert(a =~= b);
}

proof fn lemma_footer_fits(items: Seq<(Vec<u8>, IndexEntry)>, idx: IndexView, file_id: u32)
    requires
        forall|i: int|
            0 <= i < items.len() ==> idx.map.dom().contains((#[trigger] items[i]).0@),
        forall|k: Seq<u8>| #[trigger] idx.map.dom().contains(k) ==> k.len() <= u32::MAX,
    ensures
        forall|j: int|
            0 <= j < footer_of(items, idx, file_id).len() ==> entry_fits(
                #[trigger] footer_of(items, idx, file_id)[j],
            ),
    decreases items.len(),
{
    if items.len() > 0 {
        let head = items.drop_last();
        assert forall|i: int| 0 <= i < head.len() implies idx.map.dom().contains(
            (#[trigger] head[i]).0@,
        ) by {
            assert(head[i] == items[i]);
        }
        lemma_footer_fits(head, idx, file_id);
        let last = items[items.len() - 1];
        assert(idx.map.dom().contains(last.0@));
        let all = footer_of(items, idx, file_id);
        let inner = footer_of(head, idx, file_id);
        assert forall|j: int| 0 <= j < all.len() implies entry_fits(#[trigger] all[j]) by {
            if j < inner.len() {
                assert(all[j] == inner[j]);
            }
        }
    }
}

} // verus!
