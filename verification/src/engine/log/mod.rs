//! Log-structured per-namespace storage engine.
//!
//! - In-RAM index over an append-only log file per namespace.
//! - Full keys in RAM; values on disk.
//! - Operator-controlled reclaim. Never runs on a timer.
//!
//! The engine does no I/O. Each operation is a few steps: a step takes what the
//! last operation on a file gave, changes the state in memory, and says what is
//! to be done on disk next. Between two steps of one operation the steps of
//! others may come, as long as operations on the same key follow each other.
use vstd::prelude::*;

use crate::engine::error::{EngineError, Result};
use crate::engine::log::config::LogConfig;
use crate::engine::log::file::{footer_result, LogFile};
use crate::engine::log::index::{IndexView, NsIndex};
use crate::engine::log::reclaim::{fresh_run, with_run};
use crate::engine::log::recover::{gathered, open_namespace, replay};
use crate::engine::value_store::{ValueStore, ValueView};

pub mod carry;
pub mod clock;
pub mod config;
pub mod effects;
pub mod file;
pub mod history;
pub mod layout;
pub mod index;
pub mod read;
pub mod reclaim;
pub mod pool;
pub mod record;
pub mod recover;
pub mod refs;
pub mod write;

verus! {

/// A sealed file and its size-tier level. 0 = freshly sealed; merging `fanout` runs at level L
/// produces one run at level L+1.
#[derive(Debug, Clone, Copy)]
pub struct Run {
    pub file: LogFile,
    pub level: u8,
}

/// The file ids of the runs ascend.
pub open spec fn runs_ascend(runs: Seq<Run>) -> bool {
    forall|i: int, j: int|
        0 <= i < j < runs.len() ==> (#[trigger] runs[i]).file.file_id < (
        #[trigger] runs[j]).file.file_id
}

/// The log of one namespace: its index and what is known of its files.
pub struct NamespaceLog {
    /// Reference counts of the content-addressed blob store for value-separated (large) values.
    /// Values >= `config.value_sep_threshold` are stored there (write-once, deduped, GC'd when
    /// the last referencing key drops) and the log holds only a 16-byte hash pointer — so
    /// compaction never moves them.
    pub values: ValueStore,
    pub index: NsIndex,
    /// Sealed files in file_id ascending order.
    pub sealed: Vec<Run>,
    /// Active (writable) file.
    pub active: LogFile,
    pub config: LogConfig,
    /// Cumulative bytes rewritten by compaction (reclaim).
    pub compaction_bytes: u64,
    /// Bytes appended since the active file was last synced.
    pub unsynced_bytes: u64,
    /// Monotonically increasing tstamp_ms — wall clock with a +1 nudge if the
    /// clock didn't advance, so duplicate-key replays always pick the latest.
    pub last_tstamp: u64,
    /// Guards against concurrent reclaim/flush calls.
    pub reclaim_in_progress: bool,
    /// Guards against two tasks both trying to rotate the active file when
    /// the threshold is crossed simultaneously.
    pub rotate_in_progress: bool,
    /// When set, all writes are refused. Used by the handoff seal path to guarantee
    /// that the index snapshot the footer is built from matches what's on disk.
    pub frozen: bool,
    /// Count of writes currently between their entry check and exit.
    pub in_flight_writes: u32,
}

/// The state of a `NamespaceLog`.
#[verifier::ext_equal]
pub struct LogView {
    pub values: ValueView,
    pub index: IndexView,
    pub sealed: Seq<Run>,
    pub active: LogFile,
    pub config: LogConfig,
    pub compaction_bytes: u64,
    pub unsynced_bytes: u64,
    pub last_tstamp: u64,
    pub reclaim_in_progress: bool,
    pub rotate_in_progress: bool,
    pub frozen: bool,
    pub in_flight_writes: u32,
}

impl LogView {
    /// What is known of the file with this id: the active file comes first.
    pub open spec fn file(self, file_id: u32) -> Option<LogFile> {
        if self.active.file_id == file_id {
            Some(self.active)
        } else {
            run_file(self.sealed, file_id)
        }
    }

    /// An append of `n` bytes stays within the 64-bit offsets, if the active file takes any.
    pub open spec fn room_for(self, n: int) -> bool {
        self.active.poisoned || self.active.write_offset + n <= u64::MAX && self.unsynced_bytes + n
            <= u64::MAX
    }
}

/// The file of the run with this id.
pub open spec fn run_file(runs: Seq<Run>, file_id: u32) -> Option<LogFile>
    decreases runs.len(),
{
    if runs.len() == 0 {
        None
    } else if runs.last().file.file_id == file_id {
        Some(runs.last().file)
    } else {
        run_file(runs.drop_last(), file_id)
    }
}

/// The revision that the next write gets, given the last one and the clock: the clock, unless it
/// has not advanced.
pub open spec fn next_revision(last: u64, now: u64) -> u64 {
    if now > last {
        now
    } else {
        (last + 1) as u64
    }
}

/// The highest revision in an index, 0 where it is empty.
pub open spec fn is_max_revision(idx: IndexView, m: u64) -> bool {
    &&& forall|k: Seq<u8>| #[trigger] idx.map.dom().contains(k) ==> idx.map[k].tstamp_ms <= m
    &&& m > 0 ==> exists|k: Seq<u8>| #[trigger]
        idx.map.dom().contains(k) && idx.map[k].tstamp_ms == m
}

/// What an opened namespace still has to have done on disk.
#[derive(Debug, Clone, Copy)]
pub struct Opening {
    /// Where the active file is to be cut before anything is appended to it.
    pub cut: Option<u64>,
    /// The active file is new and is to be created.
    pub fresh: bool,
}

/// The state in which a namespace opens, given what recovery gave.
pub open spec fn opens_as(
    v: LogView,
    config: LogConfig,
    index: IndexView,
    sealed: Seq<LogFile>,
    active: LogFile,
) -> bool {
    &&& v.index == index
    &&& v.active == active
    &&& v.sealed == runs_of(sealed)
    &&& v.config == config
    &&& v.values.pending.len() == 0
    &&& refs::balanced(v.index, v.values)
    &&& is_max_revision(index, v.last_tstamp)
    &&& v.compaction_bytes == 0
    &&& v.unsynced_bytes == 0
    &&& !v.reclaim_in_progress
    &&& !v.rotate_in_progress
    &&& !v.frozen
    &&& v.in_flight_writes == 0
}

/// The runs of sealed files, each fresh. Of files with the same id the last one counts.
pub open spec fn runs_of(files: Seq<LogFile>) -> Seq<Run>
    decreases files.len(),
{
    if files.len() == 0 {
        seq![]
    } else {
        with_run(runs_of(files.drop_last()), fresh_run(files.last()))
    }
}

/// Files whose ids ascend have a run each, in their order.
pub proof fn lemma_runs_of_ascending(files: Seq<LogFile>)
    requires
        forall|i: int, j: int|
            0 <= i < j < files.len() ==> (#[trigger] files[i]).file_id < (
            #[trigger] files[j]).file_id,
    ensures
        runs_of(files) == files.map_values(|f: LogFile| fresh_run(f)),
    decreases files.len(),
{
    if files.len() > 0 {
        let head = files.drop_last();
        assert forall|i: int, j: int| 0 <= i < j < head.len() implies (#[trigger] head[i]).file_id
            < (#[trigger] head[j]).file_id by {
            assert(files[i].file_id < files[j].file_id);
        }
        lemma_runs_of_ascending(head);
        if head.len() > 0 {
            assert(files[head.len() - 1].file_id < files[head.len() as int].file_id);
        }
    }
    assert(runs_of(files) =~= files.map_values(|f: LogFile| fresh_run(f)));
}

impl NamespaceLog {
    pub open spec fn wf(&self) -> bool {
        &&& self.index.wf()
        &&& self.values.wf()
        &&& runs_ascend(self.sealed@)
    }

    pub open spec fn view(&self) -> LogView {
        LogView {
            values: self.values@,
            index: self.index@,
            sealed: self.sealed@,
            active: self.active,
            config: self.config,
            compaction_bytes: self.compaction_bytes,
            unsynced_bytes: self.unsynced_bytes,
            last_tstamp: self.last_tstamp,
            reclaim_in_progress: self.reclaim_in_progress,
            rotate_in_progress: self.rotate_in_progress,
            frozen: self.frozen,
            in_flight_writes: self.in_flight_writes,
        }
    }

    /// Opens a namespace from all its files, ascending by id, each with its contents. Of sealed
    /// files with the same id the last one is read from later. The index is
    /// recovered, the blob references are counted from it, and the revision clock starts at the
    /// highest revision found, so revisions never regress across a restart.
    pub fn open(files: &Vec<(u32, Vec<u8>)>, config: LogConfig) -> (r: Result<(NamespaceLog, Opening)>)
        ensures
            r matches Ok((log, _)) ==> log.wf() && log@.index == gathered(files@).index,
            files@.len() == 0 ==> r is Ok && opens_as(
                r->Ok_0.0@,
                config,
                IndexView::empty(),
                seq![],
                LogFile { file_id: 0, write_offset: 0, poisoned: false },
            ) && r->Ok_0.1.cut is None && r->Ok_0.1.fresh,
            files@.len() > 0 ==> {
                let last = files@.last();
                match footer_result(last.1@) {
                    Ok(Some(_)) => if last.0 == u32::MAX {
                        r is Err && r->Err_0 == (EngineError::BadRecord {
                            offset: 0,
                            reason: "file_id overflow on clean-shutdown recovery",
                        })
                    } else {
                        r is Ok && opens_as(
                            r->Ok_0.0@,
                            config,
                            gathered(files@).index,
                            gathered(files@).sealed,
                            LogFile {
                                file_id: (last.0 + 1) as u32,
                                write_offset: 0,
                                poisoned: false,
                            },
                        ) && r->Ok_0.1.cut is None && r->Ok_0.1.fresh
                    },
                    _ => {
                        let before = gathered(files@.drop_last());
                        let (idx, end) = replay(last.1@, last.0, 0, before.index);
                        r is Ok && opens_as(
                            r->Ok_0.0@,
                            config,
                            idx,
                            before.sealed,
                            LogFile { file_id: last.0, write_offset: end as u64, poisoned: false },
                        ) && r->Ok_0.1.cut == (if end < last.1@.len() {
                            Some(end as u64)
                        } else {
                            None
                        }) && !r->Ok_0.1.fresh
                    },
                }
            },
    {
        let opened = match open_namespace(files) {
            Ok(o) => o,
            Err(e) => {
                return Err(e);
            },
        };
        let values = refs::count_refs(&opened.index);
        let last_tstamp: u64 = max_revision(&opened.index);
        let mut log = NamespaceLog {
            values,
            index: opened.index,
            sealed: Vec::new(),
            active: opened.active,
            config,
            compaction_bytes: 0,
            unsynced_bytes: 0,
            last_tstamp,
            reclaim_in_progress: false,
            rotate_in_progress: false,
            frozen: false,
            in_flight_writes: 0,
        };
        // Recovered sealed files start at level 0 (compaction will merge them upward as new runs
        // accumulate). Levels are in memory only.
        let ghost start = log@;
        let mut i: usize = 0;
        assert(opened.sealed@.take(0) =~= seq![]);
        while i < opened.sealed.len()
            invariant
                i <= opened.sealed@.len(),
                log.wf(),
                log@ == (LogView { sealed: runs_of(opened.sealed@.take(i as int)), ..start }),
            decreases opened.sealed@.len() - i,
        {
            assert(opened.sealed@.take(i + 1).drop_last() =~= opened.sealed@.take(i as int));
            log.put_run(Run { file: opened.sealed[i], level: 0 });
            i = i + 1;
        }
        assert(opened.sealed@.take(i as int) =~= opened.sealed@);
        Ok((log, Opening { cut: opened.cut, fresh: opened.fresh }))
    }

    pub fn len(&self) -> (n: usize)
        requires
            self.wf(),
        ensures
            n == self@.index.map.dom().len(),
    {
        self.index.len()
    }

    pub fn is_empty(&self) -> (r: bool)
        requires
            self.wf(),
        ensures
            r == (self@.index.map.dom().len() == 0),
    {
        self.index.is_empty()
    }

    pub fn last_revision(&self) -> (r: u64)
        ensures
            r == self@.last_tstamp,
    {
        self.last_tstamp
    }

    pub fn sealed_file_count(&self) -> (n: usize)
        ensures
            n == self@.sealed.len(),
    {
        self.sealed.len()
    }

    /// Blocks all subsequent writes. The caller waits until no write is in flight: then the footer
    /// of a seal is a consistent snapshot of on-disk state.
    pub fn freeze(&mut self)
        ensures
            final(self)@ == (LogView { frozen: true, ..old(self)@ }),
            old(self).wf() ==> final(self).wf(),
    {
        self.frozen = true;
    }

    /// No write is between its entry check and its exit.
    pub fn drained(&self) -> (r: bool)
        ensures
            r == (self@.in_flight_writes == 0),
    {
        self.in_flight_writes == 0
    }

    /// Clear the freeze flag, allowing writes to proceed again.
    pub fn unfreeze(&mut self)
        ensures
            final(self)@ == (LogView { frozen: false, ..old(self)@ }),
            old(self).wf() ==> final(self).wf(),
    {
        self.frozen = false;
    }

    /// Finds the file with this id.
    pub fn locate_file(&self, file_id: u32) -> (r: Option<LogFile>)
        ensures
            r == self@.file(file_id),
    {
        if self.active.file_id == file_id {
            return Some(self.active);
        }
        let mut i: usize = self.sealed.len();
        assert(self.sealed@.take(i as int) =~= self.sealed@);
        while i > 0
            invariant
                i <= self.sealed@.len(),
                self.active.file_id != file_id,
                run_file(self.sealed@, file_id) == run_file(self.sealed@.take(i as int), file_id),
            decreases i,
        {
            assert(self.sealed@.take(i as int).drop_last() =~= self.sealed@.take(i - 1));
            if self.sealed[i - 1].file.file_id == file_id {
                return Some(self.sealed[i - 1].file);
            }
            i = i - 1;
        }
        None
    }
}

/// Finds the highest revision in an index.
fn max_revision(index: &NsIndex) -> (m: u64)
    requires
        index.wf(),
    ensures
        is_max_revision(index@, m),
{
    let items = index.iter();
    let mut m: u64 = 0;
    let mut i: usize = 0;
    proof {
        index.lemma_items();
    }
    while i < items.len()
        invariant
            index.wf(),
            items@ == index.items(),
            i <= items@.len(),
            forall|j: int| 0 <= j < i ==> (#[trigger] items@[j]).1.tstamp_ms <= m,
            m > 0 ==> exists|j: int| 0 <= j < i && (#[trigger] items@[j]).1.tstamp_ms == m,
        decreases items@.len() - i,
    {
        if items[i].1.tstamp_ms > m {
            m = items[i].1.tstamp_ms;
            assert(items@[i as int].1.tstamp_ms == m);
        }
        i = i + 1;
    }
    m
}

} // verus!
