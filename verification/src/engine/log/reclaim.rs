//! Seals, rotation, flush and reclaim (size-tiered compaction).
use vstd::prelude::*;

use crate::bytes;
use crate::engine::error::{EngineError, Result};
use crate::engine::log::file::{
    body_bytes, data_end, encode_footer, entry_fits, entry_views, footer_bytes, footer_result,
    hash_view, lemma_footer_round_trip, trailer_bytes, FooterEntry, FooterEntryView, LogFile,
};
use crate::engine::log::index::{IndexEntry, IndexView};
use crate::engine::log::write::{reserved, Place};
use crate::engine::log::{next_revision, runs_ascend, LogView, NamespaceLog, Run};
use crate::engine::value_store::{ContentHash, ValueView};

verus! {

/// What a reclaim did.
#[derive(Debug, Clone, Copy)]
pub struct ReclaimReport {
    pub live_keys: u64,
    pub live_bytes: u64,
    pub dead_files_dropped: u32,
    /// Files whose unlink failed after compaction; disk space is not freed until
    /// a subsequent reclaim or manual cleanup.
    pub dead_files_leaked: u32,
    pub new_file_id: u32,
}

/// The footer entry of a key.
pub open spec fn footer_entry(
    key: Seq<u8>,
    entry: IndexEntry,
    expires_at_ms: Option<u64>,
    value_hash: Option<ContentHash>,
) -> FooterEntryView {
    FooterEntryView {
        key,
        record_offset: entry.record_offset,
        record_size: entry.record_size,
        expires_at_ms,
        tstamp_ms: entry.tstamp_ms,
        value_hash: hash_view(value_hash),
    }
}

pub fn footer_entry_from_index(
    key: Vec<u8>,
    entry: &IndexEntry,
    expires_at_ms: Option<u64>,
    value_hash: Option<ContentHash>,
) -> (r: FooterEntry)
    ensures
        r@ == footer_entry(key@, *entry, expires_at_ms, value_hash),
{
    FooterEntry {
        key,
        record_offset: entry.record_offset,
        record_size: entry.record_size,
        expires_at_ms,
        tstamp_ms: entry.tstamp_ms,
        value_hash,
    }
}

/// The footer entries of the keys whose record stands in this file, in the order of the items.
pub open spec fn footer_of(
    items: Seq<(Vec<u8>, IndexEntry)>,
    idx: IndexView,
    file_id: u32,
) -> Seq<FooterEntryView>
    decreases items.len(),
{
    if items.len() == 0 {
        seq![]
    } else {
        let head = footer_of(items.drop_last(), idx, file_id);
        let (k, e) = items.last();
        if e.file_id == file_id {
            head.push(footer_entry(k@, e, idx.ttl_of(k@), idx.valsep_of(k@)))
        } else {
            head
        }
    }
}

/// The ids are taken up by the runs and the active file up to this one.
pub open spec fn highest_id(s: LogView) -> u32 {
    if s.sealed.len() > 0 && s.sealed.last().file.file_id > s.active.file_id {
        s.sealed.last().file.file_id
    } else {
        s.active.file_id
    }
}

/// The next file id is higher than that of any run and of the active file.
pub proof fn lemma_next_id_is_fresh(s: LogView)
    requires
        runs_ascend(s.sealed),
    ensures
        s.active.file_id <= highest_id(s),
        forall|i: int|
            0 <= i < s.sealed.len() ==> (#[trigger] s.sealed[i]).file.file_id <= highest_id(s),
{
    assert forall|i: int| 0 <= i < s.sealed.len() implies (#[trigger] s.sealed[i]).file.file_id
        <= highest_id(s) by {
        if i < s.sealed.len() - 1 {
            assert(s.sealed[i].file.file_id < s.sealed[s.sealed.len() - 1].file.file_id);
        }
    }
}

/// The runs with one more, in the place of its id; it replaces a run with the same id.
pub open spec fn with_run(runs: Seq<Run>, r: Run) -> Seq<Run>
    decreases runs.len(),
{
    if runs.len() == 0 || runs.last().file.file_id < r.file.file_id {
        runs.push(r)
    } else if runs.last().file.file_id == r.file.file_id {
        runs.drop_last().push(r)
    } else {
        with_run(runs.drop_last(), r).push(runs.last())
    }
}

proof fn lemma_with_run(runs: Seq<Run>, r: Run)
    requires
        runs_ascend(runs),
    ensures
        runs_ascend(with_run(runs, r)),
        with_run(runs, r).len() > 0,
        with_run(runs, r).last().file.file_id == (if runs.len() > 0 && runs.last().file.file_id
            > r.file.file_id {
            runs.last().file.file_id
        } else {
            r.file.file_id
        }),
    decreases runs.len(),
{
    if runs.len() == 0 || runs.last().file.file_id < r.file.file_id {
        assert forall|i: int, j: int| 0 <= i < j < runs.len() + 1 implies (#[trigger] runs.push(
            r,
        )[i]).file.file_id < (#[trigger] runs.push(r)[j]).file.file_id by {
            if j == runs.len() && i < runs.len() - 1 {
                assert(runs[i].file.file_id < runs[runs.len() - 1].file.file_id);
            }
        }
    } else if runs.last().file.file_id == r.file.file_id {
        let out = runs.drop_last().push(r);
        assert forall|i: int, j: int| 0 <= i < j < out.len() implies (
        #[trigger] out[i]).file.file_id < (#[trigger] out[j]).file.file_id by {
            assert(runs[i].file.file_id < runs[j].file.file_id);
        }
    } else {
        let head = runs.drop_last();
        lemma_with_run(head, r);
        let w = with_run(head, r);
        let out = w.push(runs.last());
        if head.len() > 0 {
            assert(runs[head.len() - 1].file.file_id < runs[head.len() as int].file.file_id);
        }
        assert forall|i: int, j: int| 0 <= i < j < out.len() implies (
        #[trigger] out[i]).file.file_id < (#[trigger] out[j]).file.file_id by {
            if j == w.len() {
                if i < w.len() - 1 {
                    assert(w[i].file.file_id < w[w.len() - 1].file.file_id);
                }
            }
        }
    }
}

proof fn lemma_with_run_at(runs: Seq<Run>, r: Run, at: int, replace: bool)
    requires
        0 <= at <= runs.len(),
        forall|i: int|
            at <= i < runs.len() ==> (#[trigger] runs[i]).file.file_id > r.file.file_id,
        at > 0 ==> if replace {
            runs[at - 1].file.file_id == r.file.file_id
        } else {
            runs[at - 1].file.file_id < r.file.file_id
        },
        replace ==> at > 0,
    ensures
        with_run(runs, r) == (if replace {
            runs.update(at - 1, r)
        } else {
            runs.insert(at, r)
        }),
    decreases runs.len() - at,
{
    if at == runs.len() {
        if replace {
            assert(runs.drop_last().push(r) =~= runs.update(at - 1, r));
        } else {
            assert(runs.insert(at, r) =~= runs.push(r));
        }
    } else {
        let head = runs.drop_last();
        lemma_with_run_at(head, r, at, replace);
        if replace {
            assert(head.update(at - 1, r).push(runs.last()) =~= runs.update(at - 1, r));
        } else {
            assert(head.insert(at, r).push(runs.last()) =~= runs.insert(at, r));
        }
    }
}

/// A fresh run for a file.
pub open spec fn fresh_run(f: LogFile) -> Run {
    Run { file: f, level: 0 }
}

/// The error where no file id is left.
pub open spec fn no_more_ids() -> EngineError {
    EngineError::CapacityExceeded { reason: "file_id overflow: namespace has too many log files" }
}

impl NamespaceLog {
    /// Adds a run.
    pub(crate) fn put_run(&mut self, r: Run)
        requires
            old(self).wf(),
        ensures
            final(self).wf(),
            final(self)@ == (LogView { sealed: with_run(old(self)@.sealed, r), ..old(self)@ }),
    {
        let mut at: usize = self.sealed.len();
        while at > 0 && self.sealed[at - 1].file.file_id > r.file.file_id
            invariant
                at <= self.sealed@.len(),
                forall|i: int|
                    at <= i < self.sealed@.len() ==> (#[trigger] self.sealed@[i]).file.file_id
                        > r.file.file_id,
            decreases at,
        {
            at = at - 1;
        }
        let replace = at > 0 && self.sealed[at - 1].file.file_id == r.file.file_id;
        proof {
            lemma_with_run_at(self.sealed@, r, at as int, replace);
            lemma_with_run(self.sealed@, r);
        }
        if replace {
            self.sealed[at - 1] = r;
        } else {
            self.sealed.insert(at, r);
        }
    }

    /// The footer entries of the keys whose record stands in this file.
    pub fn footer_entries(&self, file_id: u32) -> (r: Vec<FooterEntry>)
        requires
            self.wf(),
        ensures
            entry_views(r@) == footer_of(self.index.items(), self@.index, file_id),
    {
        let items = self.index.iter();
        let mut out: Vec<FooterEntry> = Vec::new();
        let mut i: usize = 0;
        assert(items@.take(0) =~= seq![]);
        assert(entry_views(out@) =~= seq![]);
        while i < items.len()
            invariant
                self.wf(),
                items@ == self.index.items(),
                i <= items@.len(),
                entry_views(out@) == footer_of(items@.take(i as int), self@.index, file_id),
            decreases items@.len() - i,
        {
            assert(items@.take(i + 1).drop_last() =~= items@.take(i as int));
            let entry = items[i].1;
            let ghost was = out@;
            if entry.file_id == file_id {
                let key = items[i].0.as_slice();
                let e = footer_entry_from_index(
                    bytes::to_owned(key),
                    &entry,
                    self.index.ttl(key),
                    self.index.valsep(key),
                );
                out.push(e);
                assert(entry_views(out@) =~= entry_views(was).push(e@));
            }
            i = i + 1;
        }
        assert(items@.take(i as int) =~= items@);
        out
    }

    /// The next file id.
    pub fn next_file_id(&self) -> (r: Result<u32>)
        requires
            self.wf(),
        ensures
            highest_id(self@) < u32::MAX ==> r == Ok::<u32, EngineError>(
                (highest_id(self@) + 1) as u32,
            ),
            highest_id(self@) == u32::MAX ==> r == Err::<u32, EngineError>(no_more_ids()),
    {
        let n: usize = self.sealed.len();
        let mut top: u32 = self.active.file_id;
        if n > 0 && self.sealed[n - 1].file.file_id > top {
            top = self.sealed[n - 1].file.file_id;
        }
        if top == u32::MAX {
            return Err(
                EngineError::CapacityExceeded {
                    reason: "file_id overflow: namespace has too many log files",
                },
            );
        }
        Ok(top + 1)
    }

    /// Makes the footer of the active file and reserves its place. On clean shutdown this is all:
    /// the next open takes the file for a sealed one, whose footer says where its keys stand. The
    /// records have to be synced before.
    pub fn seal_active_for_shutdown(&mut self) -> (r: Result<(Place, Vec<u8>)>)
        requires
            old(self).wf(),
            old(self)@.active.poisoned || old(self)@.active.write_offset + body_bytes(
                active_footer(*old(self)),
            ).len() + 24 <= u64::MAX,
        ensures
            final(self).wf(),
            final(self).index == old(self).index,
            footer_reserved(*old(self), r, final(self)@),
    {
        let entries = self.footer_entries(self.active.file_id);
        let (body, trailer) = encode_footer(&entries);
        let mut bytes = body;
        let ghost b = bytes@;
        bytes::extend(&mut bytes, trailer.as_slice());
        proof {
            lemma_trailer_len(b);
            assert(bytes@ =~= footer_bytes(active_footer(*old(self))));
        }
        match self.active.reserve(bytes.len()) {
            Ok(offset) => Ok(
                (
                    Place { file_id: self.active.file_id, offset, len: bytes.len() as u64 },
                    bytes,
                ),
            ),
            Err(e) => Err(e),
        }
    }

    /// Starts a rotation: makes the footer of the active file and reserves its place. Nothing is
    /// to be done where a rotation is already under way.
    pub fn rotate_active(&mut self) -> (r: Result<Option<(Place, Vec<u8>)>>)
        requires
            old(self).wf(),
            old(self)@.active.poisoned || old(self)@.active.write_offset + body_bytes(
                active_footer(*old(self)),
            ).len() + 24 <= u64::MAX,
        ensures
            final(self).wf(),
            match r {
                Ok(None) => old(self)@.rotate_in_progress && final(self)@ == old(self)@,
                Ok(Some(w)) => {
                    &&& !old(self)@.rotate_in_progress
                    &&& final(self)@.rotate_in_progress
                    &&& footer_reserved(
                        *old(self),
                        Ok(w),
                        LogView { rotate_in_progress: false, ..final(self)@ },
                    )
                },
                Err(e) => {
                    &&& !old(self)@.rotate_in_progress
                    &&& footer_reserved(*old(self), Err(e), final(self)@)
                },
            },
    {
        if self.rotate_in_progress {
            return Ok(None);
        }
        match self.seal_active_for_shutdown() {
            Ok(w) => {
                self.rotate_in_progress = true;
                Ok(Some(w))
            },
            Err(e) => Err(e),
        }
    }

    /// Gives up a rotation.
    pub fn rotate_failed(&mut self)
        requires
            old(self).wf(),
        ensures
            final(self).wf(),
            final(self)@ == (LogView { rotate_in_progress: false, ..old(self)@ }),
    {
        self.rotate_in_progress = false;
    }

    /// Moves the active file, whose footer is durable, among the sealed ones. The result is the id
    /// of the file that is to become the active one.
    pub fn reopen_active_after_seal(&mut self) -> (r: Result<u32>)
        requires
            old(self).wf(),
        ensures
            final(self).wf(),
            highest_id(old(self)@) < u32::MAX ==> r == Ok::<u32, EngineError>(
                (highest_id(old(self)@) + 1) as u32,
            ) && final(self)@ == (LogView {
                sealed: with_run(old(self)@.sealed, fresh_run(old(self)@.active)),
                ..old(self)@
            }),
            highest_id(old(self)@) == u32::MAX ==> r == Err::<u32, EngineError>(no_more_ids())
                && final(self)@ == old(self)@,
    {
        let next: u32 = match self.next_file_id() {
            Ok(id) => id,
            Err(e) => {
                return Err(e);
            },
        };
        self.put_run(Run { file: self.active, level: 0 });
        Ok(next)
    }

    /// Makes a file of `len` bytes that was just opened the active one. This ends a rotation.
    pub fn active_opened(&mut self, file_id: u32, len: u64)
        requires
            old(self).wf(),
        ensures
            final(self).wf(),
            final(self)@ == (LogView {
                active: LogFile { file_id, write_offset: len, poisoned: false },
                unsynced_bytes: 0,
                rotate_in_progress: false,
                ..old(self)@
            }),
    {
        self.active = LogFile::open(file_id, len);
        self.unsynced_bytes = 0;
        self.rotate_in_progress = false;
    }

    /// Whether anything was appended that was not synced.
    pub fn needs_sync(&self) -> (r: bool)
        ensures
            r == (self@.unsynced_bytes > 0),
    {
        self.unsynced_bytes > 0
    }

    /// Takes note that the active file was synced.
    pub fn synced(&mut self)
        requires
            old(self).wf(),
        ensures
            final(self).wf(),
            final(self)@ == (LogView { unsynced_bytes: 0, ..old(self)@ }),
    {
        self.unsynced_bytes = 0;
    }

    /// Ends a sync. Every log record is durable now, so the blobs orphaned by overwrites and
    /// deletes can be removed: the result names them. Each is to be removed only if it has no
    /// reference by then.
    pub fn sync(&mut self) -> (r: Vec<ContentHash>)
        requires
            old(self).wf(),
        ensures
            final(self).wf(),
            r@ == old(self)@.values.pending,
            final(self)@ == (LogView {
                unsynced_bytes: 0,
                values: ValueView { pending: seq![], ..old(self)@.values },
                ..old(self)@
            }),
    {
        self.unsynced_bytes = 0;
        self.values.collect_garbage()
    }

    /// Takes the namespace for a reclaim or a flush: only one of them at a time. Writes wait until
    /// it is given back.
    pub fn begin_exclusive(&mut self) -> (r: Result<()>)
        requires
            old(self).wf(),
        ensures
            final(self).wf(),
            old(self)@.reclaim_in_progress ==> r == Err::<(), EngineError>(
                EngineError::ReclamationBusy,
            ) && final(self)@ == old(self)@,
            !old(self)@.reclaim_in_progress ==> r == Ok::<(), EngineError>(()) && final(self)@
                == (LogView { reclaim_in_progress: true, ..old(self)@ }),
    {
        if self.reclaim_in_progress {
            return Err(EngineError::ReclamationBusy);
        }
        self.reclaim_in_progress = true;
        Ok(())
    }

    /// Gives the namespace back.
    pub fn end_exclusive(&mut self)
        requires
            old(self).wf(),
        ensures
            final(self).wf(),
            final(self)@ == (LogView { reclaim_in_progress: false, ..old(self)@ }),
    {
        self.reclaim_in_progress = false;
    }

    /// Whether a write has to wait for a reclaim or a flush.
    pub fn await_reclaim(&self) -> (r: bool)
        ensures
            r == self@.reclaim_in_progress,
    {
        self.reclaim_in_progress
    }

    /// Flushes the namespace, once it is taken and no write is in flight: drops every key, every
    /// run and every blob reference. The files are then to be unlinked, and `active_opened` makes
    /// file 0 the active one. The result is the flush's revision, strictly newer than every prior
    /// write; `now` is the clock.
    pub fn flush(&mut self, now: u64) -> (r: u64)
        requires
            old(self).wf(),
            old(self)@.last_tstamp < u64::MAX,
        ensures
            final(self).wf(),
            r == next_revision(old(self)@.last_tstamp, now),
            r > old(self)@.last_tstamp,
            final(self)@ == (LogView {
                last_tstamp: r,
                sealed: seq![],
                index: IndexView::empty(),
                values: ValueView::empty(),
                ..old(self)@
            }),
    {
        let revision: u64 = self.next_tstamp(now);
        self.sealed.clear();
        self.index.clear();
        self.values.clear();
        revision
    }

    /// Adds the active file, whose footer is durable, to the runs that a reclaim looks at.
    pub fn reclaim_sealed(&mut self)
        requires
            old(self).wf(),
        ensures
            final(self).wf(),
            final(self)@ == (LogView {
                sealed: with_run(old(self)@.sealed, fresh_run(old(self)@.active)),
                ..old(self)@
            }),
    {
        self.put_run(Run { file: self.active, level: 0 });
    }

    /// The files that hold records, in the order in which a catch-up scans them: the sealed ones
    /// ascending by id, then the active one.
    pub fn scan_order(&self) -> (r: Vec<LogFile>)
        ensures
            r@.len() == self@.sealed.len() + 1,
            forall|i: int|
                0 <= i < self@.sealed.len() ==> #[trigger] r@[i] == self@.sealed[i].file,
            r@.last() == self@.active,
    {
        let mut out: Vec<LogFile> = Vec::new();
        let mut i: usize = 0;
        while i < self.sealed.len()
            invariant
                i <= self.sealed@.len(),
                out@.len() == i,
                forall|j: int| 0 <= j < i ==> #[trigger] out@[j] == self.sealed@[j].file,
            decreases self.sealed@.len() - i,
        {
            out.push(self.sealed[i].file);
            i = i + 1;
        }
        out.push(self.active);
        out
    }
}

/// The footer entries of the active file.
pub open spec fn active_footer(log: NamespaceLog) -> Seq<FooterEntryView> {
    footer_of(log.index.items(), log@.index, log@.active.file_id)
}

/// The outcome of making the footer of the active file, and the state behind it.
pub open spec fn footer_reserved(log: NamespaceLog, r: Result<(Place, Vec<u8>)>, t: LogView) -> bool {
    match r {
        Ok((place, b)) => b@ == footer_bytes(active_footer(log)) && reserved(
            log@,
            b@.len() as int,
            Ok(place),
            t,
        ),
        Err(e) => log@.active.poisoned && reserved(log@, 0, Err(e), t),
    }
}

proof fn lemma_trailer_len(body: Seq<u8>)
    ensures
        trailer_bytes(body).len() == 24,
{
    crate::codec::lemma_le64(body.len() as u64);
    crate::codec::lemma_le64(crate::engine::log::record::crc64(body));
    crate::codec::lemma_le64(crate::engine::log::file::FOOTER_MAGIC);
}

/// The ids of the runs at this level, ascending.
pub open spec fn at_level(runs: Seq<Run>, level: u8) -> Seq<u32>
    decreases runs.len(),
{
    if runs.len() == 0 {
        seq![]
    } else {
        let head = at_level(runs.drop_last(), level);
        if runs.last().level == level {
            head.push(runs.last().file.file_id)
        } else {
            head
        }
    }
}

/// The level has runs, and enough of them for a merge.
pub open spec fn ripe(runs: Seq<Run>, level: u8, fanout: usize) -> bool {
    at_level(runs, level).len() > 0 && at_level(runs, level).len() >= fanout
}

/// The runs whose id is not among `ids`.
pub open spec fn without_ids(runs: Seq<Run>, ids: Seq<u32>) -> Seq<Run>
    decreases runs.len(),
{
    if runs.len() == 0 {
        seq![]
    } else {
        let head = without_ids(runs.drop_last(), ids);
        if ids.contains(runs.last().file.file_id) {
            head
        } else {
            head.push(runs.last())
        }
    }
}

/// A live key whose record is to be moved.
pub struct Live {
    pub key: Vec<u8>,
    pub entry: IndexEntry,
    pub expires_at_ms: Option<u64>,
    pub value_hash: Option<ContentHash>,
}

/// What a `Live` says.
#[verifier::ext_equal]
pub struct LiveView {
    pub key: Seq<u8>,
    pub entry: IndexEntry,
    pub expires_at_ms: Option<u64>,
    pub value_hash: Option<ContentHash>,
}

impl View for Live {
    type V = LiveView;

    open spec fn view(&self) -> LiveView {
        LiveView {
            key: self.key@,
            entry: self.entry,
            expires_at_ms: self.expires_at_ms,
            value_hash: self.value_hash,
        }
    }
}

/// The live keys, each by what it says.
pub open spec fn live_views(v: Seq<Live>) -> Seq<LiveView> {
    v.map_values(|l: Live| l@)
}

/// The keys whose record stands in one of these files, in the order of the items.
pub open spec fn live_in(
    items: Seq<(Vec<u8>, IndexEntry)>,
    idx: IndexView,
    ids: Seq<u32>,
) -> Seq<LiveView>
    decreases items.len(),
{
    if items.len() == 0 {
        seq![]
    } else {
        let head = live_in(items.drop_last(), idx, ids);
        let (k, e) = items.last();
        if ids.contains(e.file_id) {
            head.push(
                LiveView {
                    key: k@,
                    entry: e,
                    expires_at_ms: idx.ttl_of(k@),
                    value_hash: idx.valsep_of(k@),
                },
            )
        } else {
            head
        }
    }
}

/// A merge that is due: the runs of one level become one run of the next.
pub struct Merge {
    pub level: u8,
    /// The runs, ascending.
    pub ids: Vec<u32>,
    /// The id of the merged file.
    pub next_id: u32,
    /// The keys whose records are to be moved. The caller reads the record of each.
    pub live: Vec<Live>,
}

/// The merged file, ready to be written.
pub struct Merged {
    /// The contents of the file: the records, then the footer.
    pub image: Vec<u8>,
    /// Where each key's record stands now, in the order of the live keys.
    pub entries: Vec<IndexEntry>,
    pub live_bytes: u64,
}

/// Several byte strings, one behind the other.
pub open spec fn joined(parts: Seq<Vec<u8>>) -> Seq<u8>
    decreases parts.len(),
{
    if parts.len() == 0 {
        seq![]
    } else {
        joined(parts.drop_last()) + parts.last()@
    }
}

/// Where the record of the live key at `i` stands in the merged file.
pub open spec fn moved_entry(next_id: u32, live: Seq<LiveView>, records: Seq<Vec<u8>>, i: int) -> IndexEntry {
    IndexEntry {
        record_offset: joined(records.take(i)).len() as u64,
        record_size: live[i].entry.record_size,
        file_id: next_id,
        tstamp_ms: live[i].entry.tstamp_ms,
    }
}

/// The footer of the merged file.
pub open spec fn merged_footer(next_id: u32, live: Seq<LiveView>, records: Seq<Vec<u8>>) -> Seq<
    FooterEntryView,
> {
    Seq::new(
        live.len(),
        |i: int|
            footer_entry(
                live[i].key,
                moved_entry(next_id, live, records, i),
                live[i].expires_at_ms,
                live[i].value_hash,
            ),
    )
}

/// The contents of the merged file: the records as they are, then the records that are carried
/// over, then the footer.
pub open spec fn merged_image(
    next_id: u32,
    live: Seq<LiveView>,
    records: Seq<Vec<u8>>,
    carried: Seq<Vec<u8>>,
) -> Seq<u8> {
    joined(records) + joined(carried) + footer_bytes(merged_footer(next_id, live, records))
}

/// The records that were read for the live keys: one for each, of the size that its entry says.
pub open spec fn records_fit(live: Seq<LiveView>, records: Seq<Vec<u8>>) -> bool {
    &&& live.len() == records.len()
    &&& forall|i: int|
        0 <= i < live.len() ==> (#[trigger] records[i])@.len() == live[i].entry.record_size
}

/// Makes the merged file of a reclaim: the records of the live keys in order, the records that are
/// carried over, and a footer that points at the live ones. Nothing in a record changes.
pub fn reclaim_namespace(
    next_file_id: u32,
    live: &Vec<Live>,
    records: &Vec<Vec<u8>>,
    carried: &Vec<Vec<u8>>,
) -> (r: Merged)
    requires
        records_fit(live_views(live@), records@),
    ensures
        r.image@ == merged_image(next_file_id, live_views(live@), records@, carried@),
        r.live_bytes == joined(records@).len(),
        r.entries@.len() == live@.len(),
        forall|i: int|
            0 <= i < live@.len() ==> #[trigger] r.entries@[i] == moved_entry(
                next_file_id,
                live_views(live@),
                records@,
                i,
            ),
{
    let ghost lv = live_views(live@);
    let mut image: Vec<u8> = Vec::new();
    let mut entries: Vec<IndexEntry> = Vec::new();
    let mut footer: Vec<FooterEntry> = Vec::new();
    let mut i: usize = 0;
    assert(records@.take(0) =~= seq![]);
    while i < live.len()
        invariant
            lv == live_views(live@),
            records_fit(lv, records@),
            i <= live@.len(),
            image@ == joined(records@.take(i as int)),
            entries@.len() == i,
            footer@.len() == i,
            forall|j: int|
                0 <= j < i ==> #[trigger] entries@[j] == moved_entry(
                    next_file_id,
                    lv,
                    records@,
                    j,
                ),
            forall|j: int|
                0 <= j < i ==> (#[trigger] footer@[j])@ == merged_footer(
                    next_file_id,
                    lv,
                    records@,
                )[j],
        decreases live@.len() - i,
    {
        let l = &live[i];
        assert(lv[i as int] == l@);
        let entry = IndexEntry::new(
            next_file_id,
            image.len() as u64,
            l.entry.record_size,
            l.entry.tstamp_ms,
        );
        bytes::extend(&mut image, records[i].as_slice());
        assert(records@.take(i + 1).drop_last() =~= records@.take(i as int));
        entries.push(entry);
        footer.push(
            footer_entry_from_index(
                bytes::to_owned(l.key.as_slice()),
                &entry,
                l.expires_at_ms,
                l.value_hash,
            ),
        );
        i = i + 1;
    }
    assert(records@.take(i as int) =~= records@);
    let live_bytes: u64 = image.len() as u64;
    let ghost moved = image@;
    let mut c: usize = 0;
    assert(carried@.take(0) =~= seq![]);
    assert(moved + joined(seq![]) =~= moved);
    while c < carried.len()
        invariant
            c <= carried@.len(),
            image@ == moved + joined(carried@.take(c as int)),
        decreases carried@.len() - c,
    {
        assert(carried@.take(c + 1).drop_last() =~= carried@.take(c as int));
        bytes::extend(&mut image, carried[c].as_slice());
        assert(image@ =~= moved + joined(carried@.take(c + 1)));
        c = c + 1;
    }
    assert(carried@.take(c as int) =~= carried@);
    let (body, trailer) = encode_footer(&footer);
    let ghost head = image@;
    bytes::extend(&mut image, body.as_slice());
    bytes::extend(&mut image, trailer.as_slice());
    proof {
        assert(entry_views(footer@) =~= merged_footer(next_file_id, lv, records@));
        assert(image@ =~= head + footer_bytes(entry_views(footer@)));
    }
    Merged { image, entries, live_bytes }
}

/// The index behind the first `n` moved records of a merge.
pub open spec fn moved_index(idx: IndexView, live: Seq<LiveView>, entries: Seq<IndexEntry>, n: int) -> IndexView
    decreases n,
{
    if n <= 0 {
        idx
    } else {
        moved_index(idx, live, entries, n - 1).insert(
            live[n - 1].key,
            entries[n - 1],
            live[n - 1].expires_at_ms,
        )
    }
}

/// A level above, where there is one.
pub open spec fn level_above(level: u8) -> u8 {
    if level == 255 {
        255
    } else {
        (level + 1) as u8
    }
}

pub(crate) fn contains_id(ids: &Vec<u32>, id: u32) -> (r: bool)
    ensures
        r == ids@.contains(id),
{
    let mut i: usize = 0;
    while i < ids.len()
        invariant
            i <= ids@.len(),
            forall|j: int| 0 <= j < i ==> ids@[j] != id,
        decreases ids@.len() - i,
    {
        if ids[i] == id {
            return true;
        }
        i = i + 1;
    }
    false
}

impl NamespaceLog {
    fn ids_at(&self, level: u8) -> (r: Vec<u32>)
        ensures
            r@ == at_level(self@.sealed, level),
    {
        let mut out: Vec<u32> = Vec::new();
        let mut i: usize = 0;
        assert(self.sealed@.take(0) =~= seq![]);
        while i < self.sealed.len()
            invariant
                i <= self.sealed@.len(),
                out@ == at_level(self.sealed@.take(i as int), level),
            decreases self.sealed@.len() - i,
        {
            assert(self.sealed@.take(i + 1).drop_last() =~= self.sealed@.take(i as int));
            if self.sealed[i].level == level {
                out.push(self.sealed[i].file.file_id);
            }
            i = i + 1;
        }
        assert(self.sealed@.take(i as int) =~= self.sealed@);
        out
    }

    fn live_of(&self, ids: &Vec<u32>) -> (r: Vec<Live>)
        requires
            self.wf(),
        ensures
            live_views(r@) == live_in(self.index.items(), self@.index, ids@),
    {
        let items = self.index.iter();
        let mut out: Vec<Live> = Vec::new();
        let mut i: usize = 0;
        assert(items@.take(0) =~= seq![]);
        assert(live_views(out@) =~= seq![]);
        while i < items.len()
            invariant
                self.wf(),
                items@ == self.index.items(),
                i <= items@.len(),
                live_views(out@) == live_in(items@.take(i as int), self@.index, ids@),
            decreases items@.len() - i,
        {
            assert(items@.take(i + 1).drop_last() =~= items@.take(i as int));
            let entry = items[i].1;
            let ghost was = out@;
            if contains_id(ids, entry.file_id) {
                let key = items[i].0.as_slice();
                let l = Live {
                    key: bytes::to_owned(key),
                    entry,
                    expires_at_ms: self.index.ttl(key),
                    value_hash: self.index.valsep(key),
                };
                out.push(l);
                assert(live_views(out@) =~= live_views(was).push(l@));
            }
            i = i + 1;
        }
        assert(items@.take(i as int) =~= items@);
        out
    }

    /// Looks for the next merge of a reclaim: of the lowest level that has reached `fanout` runs.
    pub fn reclaim(&self) -> (r: Result<Option<Merge>>)
        requires
            self.wf(),
        ensures
            match r {
                Ok(None) => forall|l: u8| !#[trigger] ripe(self@.sealed, l, self@.config.fanout),
                Ok(Some(m)) => {
                    &&& highest_id(self@) < u32::MAX
                    &&& ripe(self@.sealed, m.level, self@.config.fanout)
                    &&& forall|l: u8| l < m.level ==> !#[trigger] ripe(
                        self@.sealed,
                        l,
                        self@.config.fanout,
                    )
                    &&& m.ids@ == at_level(self@.sealed, m.level)
                    &&& m.next_id == highest_id(self@) + 1
                    &&& live_views(m.live@) == live_in(
                        self.index.items(),
                        self@.index,
                        m.ids@,
                    )
                },
                Err(e) => {
                    &&& e == no_more_ids()
                    &&& highest_id(self@) == u32::MAX
                    &&& exists|l: u8| #[trigger] ripe(self@.sealed, l, self@.config.fanout)
                },
            },
    {
        let mut level: u16 = 0;
        while level < 256
            invariant
                self.wf(),
                level <= 256,
                forall|l: u8| l < level ==> !#[trigger] ripe(
                    self@.sealed,
                    l,
                    self@.config.fanout,
                ),
            decreases 256 - level,
        {
            let ids = self.ids_at(level as u8);
            if ids.len() > 0 && ids.len() >= self.config.fanout {
                assert(ripe(self@.sealed, level as u8, self@.config.fanout));
                let next_id: u32 = match self.next_file_id() {
                    Ok(id) => id,
                    Err(e) => {
                        return Err(e);
                    },
                };
                let live = self.live_of(&ids);
                return Ok(Some(Merge { level: level as u8, ids, next_id, live }));
            }
            level = level + 1;
        }
        Ok(None)
    }

    /// Takes in a merged file that is in place: the index points into it, its inputs are no runs
    /// any more, and it is a run of the level above. `len` is the file's length.
    pub fn reclaim_done(&mut self, merge: &Merge, merged: &Merged, len: u64)
        requires
            old(self).wf(),
            merged.entries@.len() == merge.live@.len(),
            old(self)@.compaction_bytes + merged.live_bytes <= u64::MAX,
        ensures
            final(self).wf(),
            final(self)@ == (LogView {
                index: moved_index(
                    old(self)@.index,
                    live_views(merge.live@),
                    merged.entries@,
                    merge.live@.len() as int,
                ),
                sealed: with_run(
                    without_ids(old(self)@.sealed, merge.ids@),
                    Run {
                        file: LogFile {
                            file_id: merge.next_id,
                            write_offset: len,
                            poisoned: false,
                        },
                        level: level_above(merge.level),
                    },
                ),
                compaction_bytes: (old(self)@.compaction_bytes + merged.live_bytes) as u64,
                ..old(self)@
            }),
    {
        self.compaction_bytes = self.compaction_bytes + merged.live_bytes;
        let ghost lv = live_views(merge.live@);
        let mut i: usize = 0;
        while i < merge.live.len()
            invariant
                self.wf(),
                i <= merge.live@.len(),
                lv == live_views(merge.live@),
                merged.entries@.len() == merge.live@.len(),
                self@ == (LogView {
                    index: moved_index(old(self)@.index, lv, merged.entries@, i as int),
                    compaction_bytes: (old(self)@.compaction_bytes + merged.live_bytes) as u64,
                    ..old(self)@
                }),
            decreases merge.live@.len() - i,
        {
            let l = &merge.live[i];
            assert(lv[i as int] == l@);
            self.index.insert(
                bytes::to_owned(l.key.as_slice()),
                merged.entries[i],
                l.expires_at_ms,
            );
            i = i + 1;
        }
        self.drop_runs(&merge.ids);
        let level: u8 = if merge.level == 255 {
            255
        } else {
            merge.level + 1
        };
        self.put_run(Run { file: LogFile::open(merge.next_id, len), level });
    }

    fn drop_runs(&mut self, ids: &Vec<u32>)
        requires
            old(self).wf(),
        ensures
            final(self).wf(),
            final(self)@ == (LogView { sealed: without_ids(old(self)@.sealed, ids@), ..old(self)@ }),
    {
        let mut left: Vec<Run> = Vec::new();
        let mut i: usize = 0;
        assert(self.sealed@.take(0) =~= seq![]);
        while i < self.sealed.len()
            invariant
                i <= self.sealed@.len(),
                left@ == without_ids(self.sealed@.take(i as int), ids@),
            decreases self.sealed@.len() - i,
        {
            assert(self.sealed@.take(i + 1).drop_last() =~= self.sealed@.take(i as int));
            let run = self.sealed[i];
            if !contains_id(ids, run.file.file_id) {
                left.push(run);
            }
            i = i + 1;
        }
        assert(self.sealed@.take(i as int) =~= self.sealed@);
        proof {
            lemma_without_ascends(self.sealed@, ids@);
        }
        self.sealed = left;
    }
}

proof fn lemma_without_ascends(runs: Seq<Run>, ids: Seq<u32>)
    requires
        runs_ascend(runs),
    ensures
        runs_ascend(without_ids(runs, ids)),
        without_ids(runs, ids).len() <= runs.len(),
        forall|i: int|
            0 <= i < without_ids(runs, ids).len() ==> runs.contains(
                #[trigger] without_ids(runs, ids)[i],
            ),
    decreases runs.len(),
{
    if runs.len() > 0 {
        let head = runs.drop_last();
        let w = without_ids(head, ids);
        let out = without_ids(runs, ids);
        lemma_without_ascends(head, ids);
        assert forall|i: int| 0 <= i < w.len() implies runs.contains(#[trigger] w[i]) && w[
            i
        ].file.file_id < runs.last().file.file_id by {
            assert(head.contains(w[i]));
            let j = choose|j: int| 0 <= j < head.len() && head[j] == w[i];
            assert(runs[j] == w[i]);
            assert(runs[j].file.file_id < runs[runs.len() - 1].file.file_id);
        }
        assert forall|i: int, j: int| 0 <= i < j < out.len() implies (
        #[trigger] out[i]).file.file_id < (#[trigger] out[j]).file.file_id by {
            if j < w.len() {
                assert(out[i] == w[i] && out[j] == w[j]);
            } else {
                assert(out[i] == w[i]);
            }
        }
        assert forall|i: int| 0 <= i < out.len() implies runs.contains(#[trigger] out[i]) by {
            if i < w.len() {
                assert(out[i] == w[i]);
            } else {
                assert(out[i] == runs[runs.len() - 1]);
            }
        }
    }
}

impl ReclaimReport {
    /// The report of a reclaim that has merged nothing yet.
    pub fn new() -> (r: ReclaimReport)
        ensures
            r == (ReclaimReport {
                live_keys: 0,
                live_bytes: 0,
                dead_files_dropped: 0,
                dead_files_leaked: 0,
                new_file_id: 0,
            }),
    {
        ReclaimReport {
            live_keys: 0,
            live_bytes: 0,
            dead_files_dropped: 0,
            dead_files_leaked: 0,
            new_file_id: 0,
        }
    }

    /// Takes in a merge: the live keys and bytes are those of the last one, the dropped and leaked
    /// files those of all. `unlinked` says of each merged file whether it could be unlinked: one
    /// that could is dropped, one that could not is leaked.
    pub fn add_merge(&mut self, merge: &Merge, merged: &Merged, unlinked: &Vec<bool>)
        requires
            unlinked@.len() == merge.ids@.len(),
            old(self).dead_files_dropped + merge.ids@.len() <= u32::MAX,
            old(self).dead_files_leaked + merge.ids@.len() <= u32::MAX,
        ensures
            final(self).live_keys == merge.live@.len(),
            final(self).live_bytes == merged.live_bytes,
            final(self).dead_files_dropped == old(self).dead_files_dropped + marked(unlinked@, true),
            final(self).dead_files_leaked == old(self).dead_files_leaked + marked(unlinked@, false),
            final(self).dead_files_dropped + final(self).dead_files_leaked == old(self).dead_files_dropped + old(self).dead_files_leaked + merge.ids@.len(),
            final(self).new_file_id == old(self).new_file_id,
    {
        self.live_keys = merge.live.len() as u64;
        self.live_bytes = merged.live_bytes;
        let mut i: usize = 0;
        assert(unlinked@.take(0) =~= seq![]);
        while i < unlinked.len()
            invariant
                i <= unlinked@.len(),
                unlinked@.len() == merge.ids@.len(),
                old(self).dead_files_dropped + merge.ids@.len() <= u32::MAX,
                old(self).dead_files_leaked + merge.ids@.len() <= u32::MAX,
                self.live_keys == merge.live@.len(),
                self.live_bytes == merged.live_bytes,
                self.new_file_id == old(self).new_file_id,
                self.dead_files_dropped == old(self).dead_files_dropped + marked(
                    unlinked@.take(i as int),
                    true,
                ),
                self.dead_files_leaked == old(self).dead_files_leaked + marked(
                    unlinked@.take(i as int),
                    false,
                ),
                marked(unlinked@.take(i as int), true) + marked(unlinked@.take(i as int), false)
                    == i,
            decreases unlinked@.len() - i,
        {
            assert(unlinked@.take(i + 1).drop_last() =~= unlinked@.take(i as int));
            if unlinked[i] {
                self.dead_files_dropped = self.dead_files_dropped + 1;
            } else {
                self.dead_files_leaked = self.dead_files_leaked + 1;
            }
            i = i + 1;
        }
        assert(unlinked@.take(i as int) =~= unlinked@);
    }
}

/// How many of the flags are `b`.
pub open spec fn marked(flags: Seq<bool>, b: bool) -> nat
    decreases flags.len(),
{
    if flags.len() == 0 {
        0
    } else {
        marked(flags.drop_last(), b) + (if flags.last() == b {
            1nat
        } else {
            0nat
        })
    }
}

proof fn lemma_joined_prefix(parts: Seq<Vec<u8>>, i: int)
    requires
        0 <= i < parts.len(),
    ensures
        joined(parts.take(i)).len() + parts[i]@.len() <= joined(parts).len(),
        joined(parts).subrange(
            joined(parts.take(i)).len() as int,
            joined(parts.take(i)).len() as int + parts[i]@.len(),
        ) == parts[i]@,
    decreases parts.len(),
{
    let head = parts.drop_last();
    let a = joined(parts.take(i)).len() as int;
    if i == parts.len() - 1 {
        assert(parts.take(i) =~= head);
        assert(joined(parts).subrange(a, a + parts[i]@.len()) =~= parts[i]@);
    } else {
        lemma_joined_prefix(head, i);
        assert(head.take(i) =~= parts.take(i));
        assert(joined(parts).subrange(a, a + parts[i]@.len()) =~= joined(head).subrange(
            a,
            a + parts[i]@.len(),
        ));
    }
}

/// A merge moves each live record as it is: the bytes at its new place are the bytes that were
/// read at its old one.
pub proof fn lemma_merge_moves_records(
    next_id: u32,
    live: Seq<LiveView>,
    records: Seq<Vec<u8>>,
    carried: Seq<Vec<u8>>,
    i: int,
)
    requires
        records_fit(live, records),
        0 <= i < live.len(),
        joined(records).len() <= u64::MAX,
    ensures
        ({
            let e = moved_entry(next_id, live, records, i);
            let image = merged_image(next_id, live, records, carried);
            &&& e.record_offset + e.record_size <= image.len()
            &&& image.subrange(e.record_offset as int, e.record_offset + e.record_size)
                == records[i]@
        }),
{
    lemma_joined_prefix(records, i);
    let e = moved_entry(next_id, live, records, i);
    let image = merged_image(next_id, live, records, carried);
    assert(image.subrange(e.record_offset as int, e.record_offset + e.record_size)
        =~= joined(records).subrange(e.record_offset as int, e.record_offset + e.record_size));
}

/// The merged file is a cleanly sealed one: its footer is read back, and its records end where
/// the footer begins.
pub proof fn lemma_merged_file_is_sealed(
    next_id: u32,
    live: Seq<LiveView>,
    records: Seq<Vec<u8>>,
    carried: Seq<Vec<u8>>,
)
    requires
        forall|i: int| 0 <= i < live.len() ==> (#[trigger] live[i]).key.len() <= u32::MAX,
        merged_image(next_id, live, records, carried).len() <= u64::MAX,
    ensures
        footer_result(merged_image(next_id, live, records, carried)) == Ok::<
            Option<Seq<FooterEntryView>>,
            EngineError,
        >(Some(merged_footer(next_id, live, records))),
        data_end(merged_image(next_id, live, records, carried)) == joined(records).len() + joined(
            carried,
        ).len(),
{
    let footer = merged_footer(next_id, live, records);
    assert forall|j: int| 0 <= j < footer.len() implies entry_fits(#[trigger] footer[j]) by {
        assert(live[j].key.len() <= u32::MAX);
    }
    lemma_footer_round_trip(joined(records) + joined(carried), footer);
}

/// The live keys are what the index holds of them.
pub open spec fn live_is_current(idx: IndexView, live: Seq<LiveView>) -> bool {
    forall|i: int|
        0 <= i < live.len() ==> idx.get((#[trigger] live[i]).key) == Some(live[i].entry)
            && idx.ttl_of(live[i].key) == live[i].expires_at_ms && idx.valsep_of(live[i].key)
            == live[i].value_hash
}

/// A merge keeps every key, its expiry, its blob and its revision; only the places of records
/// change.
pub proof fn lemma_merge_keeps_keys(
    idx: IndexView,
    next_id: u32,
    live: Seq<LiveView>,
    records: Seq<Vec<u8>>,
    entries: Seq<IndexEntry>,
    n: int,
)
    requires
        live_is_current(idx, live),
        entries.len() == live.len(),
        forall|i: int|
            0 <= i < live.len() ==> #[trigger] entries[i] == moved_entry(
                next_id,
                live,
                records,
                i,
            ),
        0 <= n <= live.len(),
    ensures
        ({
            let after = moved_index(idx, live, entries, n);
            &&& after.map.dom() == idx.map.dom()
            &&& after.ttl == idx.ttl
            &&& after.valsep == idx.valsep
            &&& forall|k: Seq<u8>| #[trigger]
                idx.map.dom().contains(k) ==> after.map[k].tstamp_ms == idx.map[k].tstamp_ms
                    && after.map[k].record_size == idx.map[k].record_size
        }),
    decreases n,
{
    if n > 0 {
        lemma_merge_keeps_keys(idx, next_id, live, records, entries, n - 1);
        let before = moved_index(idx, live, entries, n - 1);
        let after = moved_index(idx, live, entries, n);
        let l = live[n - 1];
        assert(idx.get(l.key) == Some(l.entry));
        assert(entries[n - 1] == moved_entry(next_id, live, records, n - 1));
        assert(after.map.dom() =~= idx.map.dom());
        assert(after.ttl =~= idx.ttl);
    }
}

proof fn lemma_live_in_current(
    items: Seq<(Vec<u8>, IndexEntry)>,
    idx: IndexView,
    ids: Seq<u32>,
)
    requires
        forall|i: int| 0 <= i < items.len() ==> idx.get((#[trigger] items[i]).0@) == Some(items[i].1),
    ensures
        live_is_current(idx, live_in(items, idx, ids)),
    decreases items.len(),
{
    if items.len() > 0 {
        let head = items.drop_last();
        assert forall|i: int| 0 <= i < head.len() implies idx.get((#[trigger] head[i]).0@) == Some(
            head[i].1,
        ) by {
            assert(head[i] == items[i]);
        }
        lemma_live_in_current(head, idx, ids);
        let last = items[items.len() - 1];
        assert(idx.get(last.0@) == Some(last.1));
        let out = live_in(items, idx, ids);
        let inner = live_in(head, idx, ids);
        assert forall|i: int| 0 <= i < out.len() implies idx.get((#[trigger] out[i]).key) == Some(
            out[i].entry,
        ) && idx.ttl_of(out[i].key) == out[i].expires_at_ms && idx.valsep_of(out[i].key)
            == out[i].value_hash by {
            if i < inner.len() {
                assert(out[i] == inner[i]);
            }
        }
    }
}

/// The live keys that a reclaim finds are what the index holds of them.
pub proof fn lemma_reclaim_live_is_current(log: NamespaceLog, ids: Seq<u32>)
    requires
        log.wf(),
    ensures
        live_is_current(log@.index, live_in(log.index.items(), log@.index, ids)),
{
    log.index.lemma_items();
    lemma_live_in_current(log.index.items(), log@.index, ids);
}

proof fn lemma_without_len(runs: Seq<Run>, all: Seq<Run>, level: u8)
    requires
        runs_ascend(all),
        runs.len() <= all.len(),
        runs == all.take(runs.len() as int),
    ensures
        without_ids(runs, at_level(all, level)).len() + at_level(runs, level).len() == runs.len(),
    decreases runs.len(),
{
    if runs.len() > 0 {
        let head = runs.drop_last();
        assert(head =~= all.take(head.len() as int));
        lemma_without_len(head, all, level);
        let last = all[runs.len() - 1];
        assert(runs.last() == last);
        lemma_at_level(all, level, runs.len() - 1);
    }
}

/// A run's id is among those of its level, and of no other.
proof fn lemma_at_level(all: Seq<Run>, level: u8, i: int)
    requires
        runs_ascend(all),
        0 <= i < all.len(),
    ensures
        at_level(all, level).contains(all[i].file.file_id) == (all[i].level == level),
    decreases all.len(),
{
    let head = all.drop_last();
    let ids = at_level(head, level);
    let last = all[all.len() - 1];
    assert(runs_ascend(head));
    if i < head.len() {
        lemma_at_level(head, level, i);
        assert(head[i] == all[i]);
        assert(all[i].file.file_id < last.file.file_id);
        if ids.contains(all[i].file.file_id) {
            let j = choose|j: int| 0 <= j < ids.len() && ids[j] == all[i].file.file_id;
            assert(ids.push(last.file.file_id)[j] == all[i].file.file_id);
        }
    } else {
        lemma_ids_below(head, level, last.file.file_id);
        if last.level == level {
            assert(ids.push(last.file.file_id)[ids.len() as int] == last.file.file_id);
        }
    }
}

proof fn lemma_ids_below(runs: Seq<Run>, level: u8, bound: u32)
    requires
        forall|i: int| 0 <= i < runs.len() ==> (#[trigger] runs[i]).file.file_id < bound,
    ensures
        !at_level(runs, level).contains(bound),
    decreases runs.len(),
{
    if runs.len() > 0 {
        let head = runs.drop_last();
        assert forall|i: int| 0 <= i < head.len() implies (#[trigger] head[i]).file.file_id
            < bound by {
            assert(head[i] == runs[i]);
        }
        lemma_ids_below(head, level, bound);
        assert(runs[runs.len() - 1].file.file_id < bound);
        let ids = at_level(head, level);
        if at_level(runs, level).contains(bound) {
            let j = choose|j: int|
                0 <= j < at_level(runs, level).len() && at_level(runs, level)[j] == bound;
            if j < ids.len() {
                assert(ids[j] == bound);
            }
        }
    }
}

/// A cascade of merges ends: with a fanout of two or more, each merge leaves fewer runs.
pub proof fn lemma_merge_shrinks(runs: Seq<Run>, level: u8, fanout: usize, r: Run)
    requires
        runs_ascend(runs),
        ripe(runs, level, fanout),
        fanout >= 2,
    ensures
        with_run(without_ids(runs, at_level(runs, level)), r).len() < runs.len(),
{
    assert(runs.take(runs.len() as int) =~= runs);
    lemma_without_len(runs, runs, level);
    lemma_with_run_len(without_ids(runs, at_level(runs, level)), r);
}

proof fn lemma_with_run_len(runs: Seq<Run>, r: Run)
    ensures
        with_run(runs, r).len() <= runs.len() + 1,
    decreases runs.len(),
{
    if runs.len() == 0 || runs.last().file.file_id < r.file.file_id {
    } else if runs.last().file.file_id == r.file.file_id {
    } else {
        lemma_with_run_len(runs.drop_last(), r);
    }
}

/// A merge of one level leaves the runs of the other levels as they are: the base is not
/// rewritten on every reclaim.
pub proof fn lemma_merge_leaves_other_levels(runs: Seq<Run>, level: u8, i: int)
    requires
        runs_ascend(runs),
        0 <= i < runs.len(),
        runs[i].level != level,
    ensures
        without_ids(runs, at_level(runs, level)).contains(runs[i]),
{
    lemma_at_level(runs, level, i);
    lemma_without_keeps(runs, at_level(runs, level), i);
}

proof fn lemma_without_keeps(runs: Seq<Run>, ids: Seq<u32>, i: int)
    requires
        0 <= i < runs.len(),
        !ids.contains(runs[i].file.file_id),
    ensures
        without_ids(runs, ids).contains(runs[i]),
    decreases runs.len(),
{
    let head = runs.drop_last();
    let w = without_ids(head, ids);
    if i < head.len() {
        lemma_without_keeps(head, ids, i);
        let j = choose|j: int| 0 <= j < w.len() && w[j] == head[i];
        assert(without_ids(runs, ids)[j] == runs[i]);
    } else {
        assert(without_ids(runs, ids)[w.len() as int] == runs[i]);
    }
}

} // verus!
