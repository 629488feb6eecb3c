//! Recovery: the index of a namespace, rebuilt from its files.
use vstd::prelude::*;

use crate::bytes;
use crate::engine::error::{EngineError, Result};
use crate::engine::log::file::{
    data_end, data_end_offset, entry_views, footer_result, hash_at, read_footer, FooterEntry,
    FooterEntryView, LogFile, FOOTER_TRAILER_LEN,
};
use crate::engine::log::index::{IndexEntry, IndexView, NsIndex};
use crate::engine::log::record::flags::{NO_EXPIRY, TOMBSTONE, TTL_UPDATE, VALUE_SEP};
use crate::engine::log::record::{
    body_size, crc64, fits, header_at, lemma_record_round_trip, parse_header, record_bytes,
    verify_crc, RecordHeader, HEADER_LEN,
};

verus! {

/// The expiry that a record gives its key.
pub open spec fn expiry_of(h: RecordHeader) -> Option<u64> {
    if h.flags & NO_EXPIRY != 0 {
        None
    } else {
        Some(h.expires_at_ms)
    }
}

/// The 16-byte array with these bytes.
pub open spec fn hash_of(s: Seq<u8>) -> [u8; 16] {
    choose|h: [u8; 16]| h@ == s
}

/// An array is told by its bytes.
pub proof fn lemma_hash_of(h: [u8; 16])
    ensures
        hash_of(h@) == h,
{
    let g = hash_of(h@);
    assert(g@ == h@);
    assert(g =~= h);
}

/// The content hash that a record carries in place of its value.
pub open spec fn separated(h: RecordHeader, body: Seq<u8>) -> Option<[u8; 16]> {
    if h.flags & VALUE_SEP != 0 && h.val_size == 16 {
        Some(hash_of(body.subrange(h.key_size as int, h.key_size + 16)))
    } else {
        None
    }
}

/// The index behind a record, given the index before it. The record stands at `offset` of file
/// `file_id`. A tombstone drops its key; an expiry update changes the expiry of a key that is
/// there; any other record puts its key in place.
pub open spec fn applied(
    idx: IndexView,
    file_id: u32,
    offset: u64,
    h: RecordHeader,
    body: Seq<u8>,
) -> IndexView {
    let key = body.take(h.key_size as int);
    if h.flags & TOMBSTONE != 0 {
        idx.remove(key)
    } else if h.flags & TTL_UPDATE != 0 {
        if idx.map.dom().contains(key) {
            idx.set_ttl(key, expiry_of(h))
        } else {
            idx
        }
    } else if HEADER_LEN + body_size(h) > u32::MAX {
        idx
    } else {
        idx.insert(
            key,
            IndexEntry {
                record_offset: offset,
                record_size: (HEADER_LEN + body_size(h)) as u32,
                file_id,
                tstamp_ms: h.tstamp_ms,
            },
            expiry_of(h),
        ).set_valsep(key, separated(h, body))
    }
}

/// A whole record whose checksum holds stands at `at`.
pub open spec fn good_at(image: Seq<u8>, at: int) -> bool {
    let rest = image.skip(at);
    let h = header_at(rest);
    &&& 0 <= at <= image.len()
    &&& rest.len() >= HEADER_LEN
    &&& rest.len() >= HEADER_LEN + body_size(h)
    &&& crc64(rest.subrange(8, HEADER_LEN + body_size(h))) == h.crc
}

/// How long the record at `at` is.
pub open spec fn span_at(image: Seq<u8>, at: int) -> int {
    HEADER_LEN + body_size(header_at(image.skip(at)))
}

/// The body of the record at `at`.
pub open spec fn body_at(image: Seq<u8>, at: int) -> Seq<u8> {
    image.subrange(at + HEADER_LEN, at + span_at(image, at))
}

/// The index behind the good records of a file from `at` on, and where they end. The first record
/// that is not good ends the replay.
pub open spec fn replay(image: Seq<u8>, file_id: u32, at: int, idx: IndexView) -> (IndexView, int)
    decreases image.len() - at,
{
    if good_at(image, at) {
        replay(
            image,
            file_id,
            at + span_at(image, at),
            applied(idx, file_id, at as u64, header_at(image.skip(at)), body_at(image, at)),
        )
    } else {
        (idx, at)
    }
}

/// The index behind what a record says of a key that is there already, given the index before it: a
/// tombstone drops its key, an expiry update changes the expiry of a key that is there, and any
/// other record changes nothing.
pub open spec fn marked(idx: IndexView, h: RecordHeader, body: Seq<u8>) -> IndexView {
    let key = body.take(h.key_size as int);
    if h.flags & TOMBSTONE != 0 {
        idx.remove(key)
    } else if h.flags & TTL_UPDATE != 0 && idx.map.dom().contains(key) {
        idx.set_ttl(key, expiry_of(h))
    } else {
        idx
    }
}

/// The index behind the tombstones and expiry updates among the good records of a file from `at`
/// on. The first record that is not good ends them.
pub open spec fn swept(idx: IndexView, image: Seq<u8>, at: int) -> IndexView
    decreases image.len() - at,
{
    if good_at(image, at) {
        swept(
            marked(idx, header_at(image.skip(at)), body_at(image, at)),
            image,
            at + span_at(image, at),
        )
    } else {
        idx
    }
}

/// The record at the front of `rest`, if it is a good one: its header, and how long it is.
pub(crate) fn good_record(rest: &[u8]) -> (r: Option<(RecordHeader, usize)>)
    ensures
        r is Some == good_at(rest@, 0),
        r matches Some((h, n)) ==> h == header_at(rest@) && n == span_at(rest@, 0) && n
            <= rest@.len(),
{
    assert(rest@.skip(0) =~= rest@);
    if rest.len() < HEADER_LEN {
        return None;
    }
    let hdr = match parse_header(rest, 0) {
        Ok(h) => h,
        Err(_) => {
            return None;
        },
    };
    if hdr.span() > rest.len() as u64 {
        return None;
    }
    let end: usize = hdr.record_len();
    let header_bytes = vstd::slice::slice_subrange(rest, 0, HEADER_LEN);
    let body = vstd::slice::slice_subrange(rest, HEADER_LEN, end);
    assert(header_bytes@.skip(8) + body@ =~= rest@.subrange(8, end as int));
    if verify_crc(&hdr, header_bytes, body, 0).is_err() {
        return None;
    }
    Some((hdr, end))
}

/// A record reads the same wherever the file begins.
pub proof fn lemma_record_at(image: Seq<u8>, at: int)
    requires
        0 <= at <= image.len(),
    ensures
        good_at(image.skip(at), 0) == good_at(image, at),
        span_at(image.skip(at), 0) == span_at(image, at),
        header_at(image.skip(at)) == header_at(image.skip(at).skip(0)),
        good_at(image, at) ==> body_at(image.skip(at), 0) == body_at(image, at),
{
    assert(image.skip(at).skip(0) =~= image.skip(at));
    if good_at(image, at) {
        assert(body_at(image.skip(at), 0) =~= body_at(image, at));
    }
}

/// Applies the tombstones and expiry updates among the good records of a file to the index.
pub fn sweep_records(image: &[u8], index: &mut NsIndex)
    requires
        old(index).wf(),
    ensures
        final(index).wf(),
        final(index)@ == swept(old(index)@, image@, 0),
{
    let ghost start = index@;
    let total: usize = image.len();
    let mut offset: usize = 0;
    loop
        invariant
            total == image@.len(),
            offset <= total,
            index.wf(),
            swept(index@, image@, offset as int) == swept(start, image@, 0),
        ensures
            index.wf(),
            index@ == swept(start, image@, 0),
        decreases total - offset,
    {
        let rest = vstd::slice::slice_subrange(image, offset, total);
        assert(rest@ =~= image@.skip(offset as int));
        proof {
            lemma_record_at(image@, offset as int);
        }
        let (hdr, n) = match good_record(rest) {
            Some(r) => r,
            None => {
                break;
            },
        };
        let body = vstd::slice::slice_subrange(rest, HEADER_LEN, n);
        assert(body@ =~= body_at(image@, offset as int));
        let key = vstd::slice::slice_subrange(body, 0, hdr.key_size as usize);
        assert(key@ =~= body@.take(hdr.key_size as int));
        if hdr.flags & TOMBSTONE != 0 {
            index.remove(key);
        } else if hdr.flags & TTL_UPDATE != 0 && index.get(key).is_some() {
            let ttl = if hdr.flags & NO_EXPIRY != 0 {
                None
            } else {
                Some(hdr.expires_at_ms)
            };
            index.set_ttl(key, ttl);
        }
        offset = offset + n;
    }
}

/// The part of a file that holds its records: what stands before the footer, if it ends in one.
pub open spec fn records_of(image: Seq<u8>) -> Seq<u8> {
    match footer_result(image) {
        Ok(Some(_)) => image.take(data_end(image)),
        _ => image,
    }
}

/// Finds where the records end of a file that ends in a footer.
pub(crate) fn end_of_records(image: &[u8]) -> (n: usize)
    requires
        footer_result(image@) matches Ok(Some(_)),
    ensures
        n == data_end(image@),
        n <= image@.len(),
{
    let total: usize = image.len();
    let tail = vstd::slice::slice_subrange(image, total - 24, total);
    assert(tail@ =~= image@.skip(image@.len() - FOOTER_TRAILER_LEN));
    data_end_offset(total as u64, Some(tail)) as usize
}

/// Applies one record to the index.
fn apply_record(index: &mut NsIndex, file_id: u32, offset: u64, hdr: &RecordHeader, body: &[u8])
    requires
        old(index).wf(),
        body@.len() == body_size(*hdr),
    ensures
        final(index).wf(),
        final(index)@ == applied(old(index)@, file_id, offset, *hdr, body@),
{
    let key_size: usize = hdr.key_size as usize;
    let key = vstd::slice::slice_subrange(body, 0, key_size);
    assert(key@ =~= body@.take(hdr.key_size as int));
    if hdr.flags & TOMBSTONE != 0 {
        index.remove(key);
        return;
    }
    let ttl = if hdr.flags & NO_EXPIRY != 0 {
        None
    } else {
        Some(hdr.expires_at_ms)
    };
    if hdr.flags & TTL_UPDATE != 0 {
        // An update of a key that is not there is ignored.
        if index.get(key).is_some() {
            index.set_ttl(key, ttl);
        }
        return;
    }
    if hdr.span() > u32::MAX as u64 {
        return;
    }
    let hash = if hdr.flags & VALUE_SEP != 0 && hdr.val_size == 16 {
        let h = hash_at(body, key_size);
        proof {
            lemma_hash_of(h);
        }
        Some(h)
    } else {
        None
    };
    let entry = IndexEntry::new(file_id, offset, hdr.span() as u32, hdr.tstamp_ms);
    index.insert(bytes::to_owned(key), entry, ttl);
    index.set_valsep(key, hash);
}

/// Applies the good records of a file to the index, from the start of the file to its first bad
/// record; returns where they end.
pub fn rebuild_from_records(image: &[u8], file_id: u32, index: &mut NsIndex) -> (end: u64)
    requires
        old(index).wf(),
    ensures
        final(index).wf(),
        (final(index)@, end as int) == replay(image@, file_id, 0, old(index)@),
        end <= image@.len(),
{
    let ghost start = index@;
    let total: usize = image.len();
    let mut offset: usize = 0;
    loop
        invariant
            total == image@.len(),
            offset <= total,
            index.wf(),
            replay(image@, file_id, offset as int, index@) == replay(image@, file_id, 0, start),
        ensures
            offset <= total,
            index.wf(),
            !good_at(image@, offset as int),
            replay(image@, file_id, offset as int, index@) == replay(image@, file_id, 0, start),
        decreases total - offset,
    {
        let rest = vstd::slice::slice_subrange(image, offset, total);
        assert(rest@ =~= image@.skip(offset as int));
        proof {
            lemma_record_at(image@, offset as int);
        }
        let (hdr, end) = match good_record(rest) {
            Some(r) => r,
            None => {
                break;
            },
        };
        let body = vstd::slice::slice_subrange(rest, HEADER_LEN, end);
        assert(body@ =~= body_at(image@, offset as int));
        apply_record(index, file_id, offset as u64, &hdr, body);
        offset = offset + end;
    }
    offset as u64
}

/// Replays the active file. The result is where to cut it: behind its last good record, where
/// anything follows that.
pub fn replay_active(image: &[u8], file_id: u32, index: &mut NsIndex) -> (cut: Option<u64>)
    requires
        old(index).wf(),
    ensures
        final(index).wf(),
        final(index)@ == replay(image@, file_id, 0, old(index)@).0,
        cut == (if replay(image@, file_id, 0, old(index)@).1 < image@.len() {
            Some(replay(image@, file_id, 0, old(index)@).1 as u64)
        } else {
            None
        }),
{
    let end: u64 = rebuild_from_records(image, file_id, index);
    if end < image.len() as u64 {
        Some(end)
    } else {
        None
    }
}

/// The index behind the entries of a footer, given the index before it.
pub open spec fn with_footer(
    idx: IndexView,
    file_id: u32,
    entries: Seq<FooterEntryView>,
) -> IndexView
    decreases entries.len(),
{
    if entries.len() == 0 {
        idx
    } else {
        let e = entries.last();
        with_footer(idx, file_id, entries.drop_last()).insert(
            e.key,
            IndexEntry {
                record_offset: e.record_offset,
                record_size: e.record_size,
                file_id,
                tstamp_ms: e.tstamp_ms,
            },
            e.expires_at_ms,
        ).set_valsep(
            e.key,
            match e.value_hash {
                Some(h) => Some(hash_of(h)),
                None => None,
            },
        )
    }
}

/// Applies the entries of a footer to the index.
pub fn apply_footer_entries(index: &mut NsIndex, file_id: u32, entries: &Vec<FooterEntry>)
    requires
        old(index).wf(),
    ensures
        final(index).wf(),
        final(index)@ == with_footer(old(index)@, file_id, entry_views(entries@)),
{
    let mut i: usize = 0;
    let ghost start = index@;
    let ghost views = entry_views(entries@);
    assert(views.take(0) =~= seq![]);
    while i < entries.len()
        invariant
            i <= entries@.len(),
            views == entry_views(entries@),
            index.wf(),
            index@ == with_footer(start, file_id, views.take(i as int)),
        decreases entries@.len() - i,
    {
        let e = &entries[i];
        let entry = IndexEntry::new(file_id, e.record_offset, e.record_size, e.tstamp_ms);
        index.insert(bytes::to_owned(e.key.as_slice()), entry, e.expires_at_ms);
        index.set_valsep(e.key.as_slice(), e.value_hash);
        proof {
            if let Some(h) = e.value_hash {
                lemma_hash_of(h);
            }
            assert(views.take(i + 1).drop_last() =~= views.take(i as int));
            assert(views.take(i + 1).last() == e@);
        }
        i = i + 1;
    }
    assert(views.take(i as int) =~= views);
}

/// Takes in a file that ends in this footer.
fn take_footer(index: &mut NsIndex, file_id: u32, image: &[u8], entries: &Vec<FooterEntry>)
    requires
        old(index).wf(),
        footer_result(image@) matches Ok(Some(e)) && e == entry_views(entries@),
    ensures
        final(index).wf(),
        final(index)@ == with_footer(
            swept(old(index)@, records_of(image@), 0),
            file_id,
            entry_views(entries@),
        ),
{
    let n: usize = end_of_records(image);
    let records = vstd::slice::slice_subrange(image, 0, n);
    assert(records@ =~= records_of(image@));
    sweep_records(records, index);
    apply_footer_entries(index, file_id, entries);
}

/// Result of opening a namespace directory.
pub struct OpenedFiles {
    /// Sealed (immutable) files, in the order in which they were read.
    pub sealed: Vec<LogFile>,
    /// Active file (writable).
    pub active: LogFile,
    /// Populated index for the namespace.
    pub index: NsIndex,
    /// Where the active file is to be cut before anything is appended to it.
    pub cut: Option<u64>,
    /// The active file is new and is still to be created.
    pub fresh: bool,
}

/// What recovery has gathered.
#[verifier::ext_equal]
pub struct Recovered {
    pub sealed: Seq<LogFile>,
    pub index: IndexView,
}

impl Recovered {
    pub open spec fn empty() -> Recovered {
        Recovered { sealed: seq![], index: IndexView::empty() }
    }

    /// Behind one more sealed file. Its footer says where the keys stand whose records it holds;
    /// before that count the tombstones and expiry updates among its records, which may speak of
    /// keys of earlier files. Where the footer is absent or corrupt, all its records count.
    pub open spec fn with_sealed(self, file_id: u32, image: Seq<u8>) -> Recovered {
        Recovered {
            sealed: self.sealed.push(
                LogFile { file_id, write_offset: image.len() as u64, poisoned: false },
            ),
            index: match footer_result(image) {
                Ok(Some(entries)) => with_footer(
                    swept(self.index, records_of(image), 0),
                    file_id,
                    entries,
                ),
                _ => replay(image, file_id, 0, self.index).0,
            },
        }
    }
}

/// Recovery of a namespace under way: the files are handed in one after the other, ascending by
/// id.
pub struct Recovery {
    pub sealed: Vec<LogFile>,
    pub index: NsIndex,
}

impl Recovery {
    pub open spec fn wf(&self) -> bool {
        self.index.wf()
    }

    pub open spec fn view(&self) -> Recovered {
        Recovered { sealed: self.sealed@, index: self.index@ }
    }

    pub fn new() -> (r: Recovery)
        ensures
            r.wf(),
            r@ == Recovered::empty(),
    {
        let r = Recovery { sealed: Vec::new(), index: NsIndex::new() };
        assert(r@ =~= Recovered::empty());
        r
    }

    /// Takes in a file that is not the last one.
    pub fn sealed_file(&mut self, file_id: u32, image: &[u8])
        requires
            old(self).wf(),
        ensures
            final(self).wf(),
            final(self)@ == old(self)@.with_sealed(file_id, image@),
    {
        match read_footer(image) {
            Ok(Some(entries)) => {
                take_footer(&mut self.index, file_id, image, &entries);
            },
            _ => {
                rebuild_from_records(image, file_id, &mut self.index);
            },
        }
        self.sealed.push(LogFile::open(file_id, image.len() as u64));
    }

    /// Ends the recovery of a namespace that has no files: it starts with an empty active file.
    pub fn no_files(self) -> (r: OpenedFiles)
        requires
            self.wf(),
        ensures
            r.index.wf(),
            r.index@ == self@.index,
            r.sealed@ == self@.sealed,
            r.active == (LogFile { file_id: 0, write_offset: 0, poisoned: false }),
            r.cut is None,
            r.fresh,
    {
        OpenedFiles {
            sealed: self.sealed,
            active: LogFile::open(0, 0),
            index: self.index,
            cut: None,
            fresh: true,
        }
    }

    /// Ends the recovery with the file that has the highest id. Where it was sealed cleanly, a
    /// fresh file becomes the active one; else it is replayed, cut behind its last good record,
    /// and stays active.
    pub fn last_file(self, file_id: u32, image: &[u8]) -> (r: Result<OpenedFiles>)
        requires
            self.wf(),
        ensures
            match footer_result(image@) {
                Ok(Some(_)) => if file_id == u32::MAX {
                    r is Err && r->Err_0 == (EngineError::BadRecord {
                        offset: 0,
                        reason: "file_id overflow on clean-shutdown recovery",
                    })
                } else {
                    &&& r is Ok
                    &&& r->Ok_0.index.wf()
                    &&& r->Ok_0.index@ == self@.with_sealed(file_id, image@).index
                    &&& r->Ok_0.sealed@ == self@.with_sealed(file_id, image@).sealed
                    &&& r->Ok_0.active == (LogFile {
                        file_id: (file_id + 1) as u32,
                        write_offset: 0,
                        poisoned: false,
                    })
                    &&& r->Ok_0.cut is None
                    &&& r->Ok_0.fresh
                },
                _ => {
                    let (idx, end) = replay(image@, file_id, 0, self@.index);
                    &&& r is Ok
                    &&& r->Ok_0.index.wf()
                    &&& r->Ok_0.index@ == idx
                    &&& r->Ok_0.sealed@ == self@.sealed
                    &&& r->Ok_0.active == (LogFile {
                        file_id,
                        write_offset: end as u64,
                        poisoned: false,
                    })
                    &&& r->Ok_0.cut == (if end < image@.len() {
                        Some(end as u64)
                    } else {
                        None
                    })
                    &&& !r->Ok_0.fresh
                },
            },
    {
        let mut this = self;
        match read_footer(image) {
            Ok(Some(entries)) => {
                if file_id == u32::MAX {
                    return Err(
                        EngineError::BadRecord {
                            offset: 0,
                            reason: "file_id overflow on clean-shutdown recovery",
                        },
                    );
                }
                take_footer(&mut this.index, file_id, image, &entries);
                this.sealed.push(LogFile::open(file_id, image.len() as u64));
                Ok(
                    OpenedFiles {
                        sealed: this.sealed,
                        active: LogFile::open(file_id + 1, 0),
                        index: this.index,
                        cut: None,
                        fresh: true,
                    },
                )
            },
            _ => {
                let mut active = LogFile::open(file_id, image.len() as u64);
                let cut = replay_active(image, file_id, &mut this.index);
                if let Some(end) = cut {
                    active.truncate_to(end);
                }
                proof {
                    lemma_replay_end(image@, file_id, 0, self@.index);
                }
                Ok(
                    OpenedFiles {
                        sealed: this.sealed,
                        active,
                        index: this.index,
                        cut,
                        fresh: false,
                    },
                )
            },
        }
    }
}

/// A replay ends inside the file.
proof fn lemma_replay_end(image: Seq<u8>, file_id: u32, at: int, idx: IndexView)
    requires
        0 <= at <= image.len(),
    ensures
        at <= replay(image, file_id, at, idx).1 <= image.len(),
    decreases image.len() - at,
{
    if good_at(image, at) {
        lemma_replay_end(
            image,
            file_id,
            at + span_at(image, at),
            applied(idx, file_id, at as u64, header_at(image.skip(at)), body_at(image, at)),
        );
    }
}

/// What the recovery of these files gathers.
pub open spec fn gathered(files: Seq<(u32, Vec<u8>)>) -> Recovered
    decreases files.len(),
{
    if files.len() == 0 {
        Recovered::empty()
    } else {
        gathered(files.drop_last()).with_sealed(files.last().0, files.last().1@)
    }
}

/// Recovers a namespace from all its files, ascending by id, each with its contents.
pub fn open_namespace(files: &Vec<(u32, Vec<u8>)>) -> (r: Result<OpenedFiles>)
    ensures
        files@.len() == 0 ==> r is Ok && r->Ok_0.index.wf() && r->Ok_0.index@ == IndexView::empty()
            && r->Ok_0.sealed@.len() == 0 && r->Ok_0.active == (LogFile {
            file_id: 0,
            write_offset: 0,
            poisoned: false,
        }) && r->Ok_0.cut is None && r->Ok_0.fresh,
        files@.len() > 0 ==> {
            let last = files@.last();
            let before = gathered(files@.drop_last());
            match footer_result(last.1@) {
                Ok(Some(_)) => if last.0 == u32::MAX {
                    r is Err && r->Err_0 == (EngineError::BadRecord {
                        offset: 0,
                        reason: "file_id overflow on clean-shutdown recovery",
                    })
                } else {
                    &&& r is Ok
                    &&& r->Ok_0.index.wf()
                    &&& r->Ok_0.index@ == gathered(files@).index
                    &&& r->Ok_0.sealed@ == gathered(files@).sealed
                    &&& r->Ok_0.active == (LogFile {
                        file_id: (last.0 + 1) as u32,
                        write_offset: 0,
                        poisoned: false,
                    })
                    &&& r->Ok_0.cut is None
                    &&& r->Ok_0.fresh
                },
                _ => {
                    let (idx, end) = replay(last.1@, last.0, 0, before.index);
                    &&& r is Ok
                    &&& r->Ok_0.index.wf()
                    &&& r->Ok_0.index@ == idx
                    &&& r->Ok_0.sealed@ == before.sealed
                    &&& r->Ok_0.active == (LogFile {
                        file_id: last.0,
                        write_offset: end as u64,
                        poisoned: false,
                    })
                    &&& r->Ok_0.cut == (if end < last.1@.len() {
                        Some(end as u64)
                    } else {
                        None
                    })
                    &&& !r->Ok_0.fresh
                },
            }
        },
{
    let mut rec = Recovery::new();
    let n: usize = files.len();
    if n == 0 {
        return Ok(rec.no_files());
    }
    let mut i: usize = 0;
    assert(files@.take(0) =~= seq![]);
    while i < n - 1
        invariant
            n == files@.len(),
            i <= n - 1,
            rec.wf(),
            rec@ == gathered(files@.take(i as int)),
        decreases n - 1 - i,
    {
        rec.sealed_file(files[i].0, files[i].1.as_slice());
        assert(files@.take(i + 1).drop_last() =~= files@.take(i as int));
        i = i + 1;
    }
    assert(files@.take(i as int) =~= files@.drop_last());
    rec.last_file(files[n - 1].0, files[n - 1].1.as_slice())
}

/// A file of good records up to its end goes on with one more record: the replay of the longer
/// file is the replay of the shorter one, then the record.
pub proof fn lemma_replay_append(image: Seq<u8>, rec: Seq<u8>, file_id: u32, at: int, idx: IndexView)
    requires
        0 <= at <= image.len(),
        replay(image, file_id, at, idx).1 == image.len(),
        good_at(rec, 0),
        span_at(rec, 0) == rec.len(),
    ensures
        replay(image + rec, file_id, at, idx) == (
            applied(
                replay(image, file_id, at, idx).0,
                file_id,
                image.len() as u64,
                header_at(rec),
                rec.skip(HEADER_LEN as int),
            ),
            (image.len() + rec.len()) as int,
        ),
    decreases image.len() - at,
{
    let long = image + rec;
    if at == image.len() {
        reveal_with_fuel(replay, 2);
        assert(long.skip(at) =~= rec);
        assert(rec.skip(0) =~= rec);
        assert(body_at(long, at) =~= rec.skip(HEADER_LEN as int));
        assert(!good_at(image, at));
        assert(!good_at(long, long.len() as int));
    } else {
        assert(good_at(image, at));
        lemma_same_record(image, rec, at);
        lemma_replay_append(
            image,
            rec,
            file_id,
            at + span_at(image, at),
            applied(idx, file_id, at as u64, header_at(image.skip(at)), body_at(image, at)),
        );
    }
}

/// A record inside `image` reads the same whatever follows `image`.
proof fn lemma_same_record(image: Seq<u8>, tail: Seq<u8>, at: int)
    requires
        good_at(image, at),
    ensures
        good_at(image + tail, at),
        span_at(image + tail, at) == span_at(image, at),
        body_at(image + tail, at) == body_at(image, at),
        header_at((image + tail).skip(at)) == header_at(image.skip(at)),
{
    let a = image.skip(at);
    let b = (image + tail).skip(at);
    assert(a.subrange(0, 8) =~= b.subrange(0, 8));
    assert(a.subrange(8, 16) =~= b.subrange(8, 16));
    assert(a.subrange(17, 25) =~= b.subrange(17, 25));
    assert(a.subrange(25, 29) =~= b.subrange(25, 29));
    assert(a.subrange(29, 33) =~= b.subrange(29, 33));
    assert(a.subrange(33, 37) =~= b.subrange(33, 37));
    let n = span_at(image, at);
    assert(a.subrange(8, n) =~= b.subrange(8, n));
    assert(body_at(image + tail, at) =~= body_at(image, at));
}

/// A file of good records up to its end goes on with one more record: what the longer file says of
/// keys that are there already is what the shorter one says, then what the record says.
pub proof fn lemma_swept_append(image: Seq<u8>, rec: Seq<u8>, file_id: u32, at: int, idx: IndexView, any: IndexView)
    requires
        0 <= at <= image.len(),
        replay(image, file_id, at, any).1 == image.len(),
        good_at(rec, 0),
        span_at(rec, 0) == rec.len(),
    ensures
        swept(idx, image + rec, at) == marked(
            swept(idx, image, at),
            header_at(rec),
            rec.skip(HEADER_LEN as int),
        ),
    decreases image.len() - at,
{
    let long = image + rec;
    if at == image.len() {
        reveal_with_fuel(swept, 2);
        assert(long.skip(at) =~= rec);
        assert(rec.skip(0) =~= rec);
        assert(body_at(long, at) =~= rec.skip(HEADER_LEN as int));
        assert(!good_at(image, at));
        assert(!good_at(long, long.len() as int));
    } else {
        assert(good_at(image, at));
        lemma_same_record(image, rec, at);
        lemma_swept_append(
            image,
            rec,
            file_id,
            at + span_at(image, at),
            marked(idx, header_at(image.skip(at)), body_at(image, at)),
            applied(any, file_id, at as u64, header_at(image.skip(at)), body_at(image, at)),
        );
    }
}

/// A crash that tears the last record off costs that record and nothing before it: the replay
/// ends where the torn record begins, with the index that the whole records give.
pub proof fn lemma_torn_tail(image: Seq<u8>, rec: Seq<u8>, n: int, file_id: u32, at: int, idx: IndexView)
    requires
        0 <= at <= image.len(),
        replay(image, file_id, at, idx).1 == image.len(),
        good_at(rec, 0),
        span_at(rec, 0) == rec.len(),
        0 <= n < rec.len(),
    ensures
        replay(image + rec.take(n), file_id, at, idx) == replay(image, file_id, at, idx),
    decreases image.len() - at,
{
    let torn = image + rec.take(n);
    if at == image.len() {
        assert(torn.skip(at) =~= rec.take(n));
        assert(rec.skip(0) =~= rec);
        assert(!good_at(image, at));
        if n >= HEADER_LEN {
            let a = rec;
            let b = rec.take(n);
            assert(a.subrange(25, 29) =~= b.subrange(25, 29));
            assert(a.subrange(29, 33) =~= b.subrange(29, 33));
            assert(a.subrange(33, 37) =~= b.subrange(33, 37));
        }
        assert(!good_at(torn, at));
    } else {
        assert(good_at(image, at));
        lemma_same_record(image, rec.take(n), at);
        lemma_torn_tail(
            image,
            rec,
            n,
            file_id,
            at + span_at(image, at),
            applied(idx, file_id, at as u64, header_at(image.skip(at)), body_at(image, at)),
        );
    }
}

/// A record as it is written is a good record, and takes up all its bytes.
pub proof fn lemma_written_is_good(
    tstamp_ms: u64,
    flags: u8,
    expires_at_ms: u64,
    key: Seq<u8>,
    value: Seq<u8>,
    metadata: Seq<u8>,
)
    requires
        fits(key, value, metadata),
    ensures
        ({
            let b = record_bytes(tstamp_ms, flags, expires_at_ms, key, value, metadata);
            good_at(b, 0) && span_at(b, 0) == b.len()
        }),
{
    let b = record_bytes(tstamp_ms, flags, expires_at_ms, key, value, metadata);
    lemma_record_round_trip(tstamp_ms, flags, expires_at_ms, key, value, metadata);
    assert(b.skip(0) =~= b);
    assert(b.subrange(8, b.len() as int) =~= b.skip(8));
}

/// Recovery is idempotent: the replay of a file that was cut behind its last good record gives
/// the same index, and there is nothing more to cut.
pub proof fn lemma_cut_is_final(image: Seq<u8>, file_id: u32, at: int, idx: IndexView)
    requires
        0 <= at <= image.len(),
    ensures
        ({
            let end = replay(image, file_id, at, idx).1;
            replay(image.take(end), file_id, at, idx) == replay(image, file_id, at, idx)
        }),
    decreases image.len() - at,
{
    let end = replay(image, file_id, at, idx).1;
    lemma_replay_end(image, file_id, at, idx);
    let cut = image.take(end);
    if good_at(image, at) {
        let next = at + span_at(image, at);
        let idx2 = applied(
            idx,
            file_id,
            at as u64,
            header_at(image.skip(at)),
            body_at(image, at),
        );
        lemma_cut_is_final(image, file_id, next, idx2);
        lemma_replay_end(image, file_id, next, idx2);
        let a = image.skip(at);
        let b = cut.skip(at);
        assert(a.subrange(0, 8) =~= b.subrange(0, 8));
        assert(a.subrange(8, 16) =~= b.subrange(8, 16));
        assert(a.subrange(17, 25) =~= b.subrange(17, 25));
        assert(a.subrange(25, 29) =~= b.subrange(25, 29));
        assert(a.subrange(29, 33) =~= b.subrange(29, 33));
        assert(a.subrange(33, 37) =~= b.subrange(33, 37));
        let n = span_at(image, at);
        assert(a.subrange(8, n) =~= b.subrange(8, n));
        assert(body_at(cut, at) =~= body_at(image, at));
        assert(good_at(cut, at));
    } else {
        assert(cut.skip(at).len() == 0);
        assert(!good_at(cut, at));
    }
}

} // verus!
