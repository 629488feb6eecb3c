//! What a merge carries over besides the live records: the deletions and the expiries that files
//! which stay are still to be told of.
use vstd::prelude::*;

use crate::bytes;
use crate::engine::log::file::{footer_result, read_footer, FooterEntryView};
use crate::engine::log::history::{agree, lemma_same_lookups};
use crate::engine::log::index::{has_key, lookup, IndexEntry, IndexView};
use crate::engine::log::reclaim::{
    contains_id, joined, lemma_merge_keeps_keys, lemma_merged_file_is_sealed,
    lemma_reclaim_live_is_current, live_in, live_is_current, merged_footer, merged_image,
    moved_entry, moved_index, records_fit, without_ids, LiveView, Merge,
};
use crate::engine::log::record::flags::{NO_EXPIRY, TOMBSTONE, TTL_UPDATE};
use crate::engine::log::record::{
    encode, fits, header_at, lemma_record_round_trip, record_bytes, RecordHeader, HEADER_LEN,
};
use crate::engine::log::recover::{
    applied, body_at, end_of_records, expiry_of, gathered, good_at, good_record, lemma_hash_of,
    lemma_record_at, lemma_replay_append, lemma_swept_append, lemma_written_is_good, marked,
    records_of, replay, span_at, swept, with_footer,
};
use crate::engine::log::write::{expiry_field, ttl_flags};
use crate::engine::log::{LogView, NamespaceLog, Run};
use crate::engine::watch::kept;
use crate::fx::FxMap;

verus! {

/// What a record says of a key that is there already.
pub enum Mark {
    /// The key is deleted; `record` is its tombstone.
    Gone { key: Vec<u8>, record: Vec<u8> },
    /// The key's expiry is changed.
    Retimed { key: Vec<u8> },
}

/// What a `Mark` says.
#[verifier::ext_equal]
pub enum MarkView {
    Gone { key: Seq<u8>, record: Seq<u8> },
    Retimed { key: Seq<u8> },
}

impl MarkView {
    pub open spec fn key(self) -> Seq<u8> {
        match self {
            MarkView::Gone { key, .. } => key,
            MarkView::Retimed { key } => key,
        }
    }

    /// The mark still counts once the files with these ids have been merged: the key is not there,
    /// or its record stands in a file that stays.
    pub open spec fn needed(self, idx: IndexView, ids: Seq<u32>) -> bool {
        match self {
            MarkView::Gone { key, .. } => !idx.map.dom().contains(key),
            MarkView::Retimed { key } => {
                &&& idx.map.dom().contains(key)
                &&& !ids.contains(idx.map[key].file_id)
                &&& fits(key, seq![], seq![])
            },
        }
    }

    /// The record that is carried over: the tombstone as it is, or an update to the expiry that the
    /// key has now.
    pub open spec fn carried(self, idx: IndexView) -> Seq<u8> {
        match self {
            MarkView::Gone { record, .. } => record,
            MarkView::Retimed { key } => record_bytes(
                idx.map[key].tstamp_ms,
                ttl_flags(idx.ttl_of(key)),
                expiry_field(idx.ttl_of(key)),
                key,
                seq![],
                seq![],
            ),
        }
    }
}

impl View for Mark {
    type V = MarkView;

    open spec fn view(&self) -> MarkView {
        match *self {
            Mark::Gone { key, record } => MarkView::Gone { key: key@, record: record@ },
            Mark::Retimed { key } => MarkView::Retimed { key: key@ },
        }
    }
}

/// The marks, each by what it says.
pub open spec fn mark_views(v: Seq<Mark>) -> Seq<MarkView> {
    v.map_values(|m: Mark| m@)
}

/// What a record with this header, key and bytes says of a key that is there already.
pub open spec fn mark_of(h: RecordHeader, key: Seq<u8>, record: Seq<u8>) -> Seq<MarkView> {
    if h.flags & TOMBSTONE != 0 {
        seq![MarkView::Gone { key, record }]
    } else if h.flags & TTL_UPDATE != 0 {
        seq![MarkView::Retimed { key }]
    } else {
        seq![]
    }
}

/// The marks among the good records of a file from `at` on, in order.
pub open spec fn marks_from(image: Seq<u8>, at: int) -> Seq<MarkView>
    decreases image.len() - at,
{
    if good_at(image, at) {
        let h = header_at(image.skip(at));
        let n = span_at(image, at);
        mark_of(
            h,
            body_at(image, at).take(h.key_size as int),
            image.subrange(at, at + n),
        ) + marks_from(image, at + n)
    } else {
        seq![]
    }
}

/// The marks of several files, in order.
pub open spec fn all_marks(images: Seq<Vec<u8>>) -> Seq<MarkView>
    decreases images.len(),
{
    if images.len() == 0 {
        seq![]
    } else {
        all_marks(images.drop_last()) + marks_from(records_of(images.last()@), 0)
    }
}

/// A mark of this key still counts.
pub open spec fn needs(idx: IndexView, ids: Seq<u32>, marks: Seq<MarkView>, k: Seq<u8>) -> bool {
    exists|i: int|
        0 <= i < marks.len() && (#[trigger] marks[i]).needed(idx, ids) && marks[i].key() == k
}

/// The marks that are carried over: of each key the last one that still counts, last ones first.
pub open spec fn chosen(idx: IndexView, ids: Seq<u32>, marks: Seq<MarkView>) -> Seq<MarkView>
    decreases marks.len(),
{
    if marks.len() == 0 {
        seq![]
    } else {
        let rest = chosen(idx, ids, marks.skip(1));
        if marks[0].needed(idx, ids) && !needs(idx, ids, marks.skip(1), marks[0].key()) {
            rest.push(marks[0])
        } else {
            rest
        }
    }
}

/// The records of these marks.
pub open spec fn carried_records(idx: IndexView, marks: Seq<MarkView>) -> Seq<Seq<u8>> {
    marks.map_values(|m: MarkView| m.carried(idx))
}

/// Byte strings, each by its bytes.
pub open spec fn byte_views(v: Seq<Vec<u8>>) -> Seq<Seq<u8>> {
    v.map_values(|b: Vec<u8>| b@)
}

/// The records that a merge of the files with these ids and contents carries over: none where no
/// other sealed file stays.
pub open spec fn carried_over(s: LogView, ids: Seq<u32>, images: Seq<Vec<u8>>) -> Seq<Seq<u8>> {
    if without_ids(s.sealed, ids).len() == 0 {
        seq![]
    } else {
        carried_records(s.index, chosen(s.index, ids, all_marks(images)))
    }
}

/// Collects the marks of a file.
fn collect_marks(image: &[u8], out: &mut Vec<Mark>)
    ensures
        mark_views(final(out)@) == mark_views(old(out)@) + marks_from(records_of(image@), 0),
{
    let n: usize = match read_footer(image) {
        Ok(Some(_)) => end_of_records(image),
        _ => image.len(),
    };
    let records = vstd::slice::slice_subrange(image, 0, n);
    assert(records@ =~= records_of(image@));
    let ghost start = mark_views(out@);
    let mut offset: usize = 0;
    loop
        invariant
            n == records@.len(),
            offset <= n,
            mark_views(out@) + marks_from(records@, offset as int) == start + marks_from(
                records@,
                0,
            ),
        ensures
            mark_views(out@) == start + marks_from(records@, 0),
        decreases n - offset,
    {
        let rest = vstd::slice::slice_subrange(records, offset, n);
        assert(rest@ =~= records@.skip(offset as int));
        proof {
            lemma_record_at(records@, offset as int);
        }
        let (hdr, len) = match good_record(rest) {
            Some(r) => r,
            None => {
                assert(mark_views(out@) + seq![] =~= mark_views(out@));
                break;
            },
        };
        let ghost was = out@;
        let ghost next = marks_from(records@, offset + len);
        let key = vstd::slice::slice_subrange(rest, HEADER_LEN, HEADER_LEN + hdr.key_size as usize);
        let ghost body = body_at(records@, offset as int);
        assert(key@ =~= body.take(hdr.key_size as int));
        let record = vstd::slice::slice_subrange(rest, 0, len);
        assert(record@ =~= records@.subrange(offset as int, offset + len));
        if hdr.flags & TOMBSTONE != 0 {
            out.push(Mark::Gone { key: bytes::to_owned(key), record: bytes::to_owned(record) });
        } else if hdr.flags & TTL_UPDATE != 0 {
            out.push(Mark::Retimed { key: bytes::to_owned(key) });
        }
        assert(mark_views(out@) =~= mark_views(was) + mark_of(hdr, key@, record@));
        assert(mark_views(was) + (mark_of(hdr, key@, record@) + next) =~= mark_views(out@) + next);
        offset = offset + len;
    }
}

impl Mark {
    /// The record to carry over for this mark, if it still counts.
    fn record(&self, log: &NamespaceLog, ids: &Vec<u32>) -> (r: Option<(Vec<u8>, Vec<u8>)>)
        requires
            log.wf(),
        ensures
            r is Some == self@.needed(log@.index, ids@),
            r matches Some((key, record)) ==> key@ == self@.key() && record@ == self@.carried(
                log@.index,
            ),
    {
        match self {
            Mark::Gone { key, record } => {
                if log.index.get(key.as_slice()).is_some() {
                    return None;
                }
                Some((bytes::to_owned(key.as_slice()), bytes::to_owned(record.as_slice())))
            },
            Mark::Retimed { key } => {
                let entry = match log.index.get(key.as_slice()) {
                    Some(e) => *e,
                    None => {
                        return None;
                    },
                };
                if contains_id(ids, entry.file_id) {
                    return None;
                }
                let none: Vec<u8> = Vec::new();
                assert(none@ =~= seq![]);
                let made = match log.index.ttl(key.as_slice()) {
                    Some(ms) => encode(
                        entry.tstamp_ms,
                        TTL_UPDATE,
                        ms,
                        key.as_slice(),
                        none.as_slice(),
                        none.as_slice(),
                    ),
                    None => encode(
                        entry.tstamp_ms,
                        TTL_UPDATE | NO_EXPIRY,
                        0,
                        key.as_slice(),
                        none.as_slice(),
                        none.as_slice(),
                    ),
                };
                match made {
                    Ok(record) => Some((bytes::to_owned(key.as_slice()), record)),
                    Err(_) => None,
                }
            },
        }
    }
}

impl NamespaceLog {
    /// The records that a merge carries over besides the live ones. `images` are the contents of
    /// the merged files, in order. A tombstone is dead once no other sealed file is left, or once
    /// its key is there again.
    pub fn carry(&self, merge: &Merge, images: &Vec<Vec<u8>>) -> (r: Vec<Vec<u8>>)
        requires
            self.wf(),
        ensures
            byte_views(r@) == carried_over(self@, merge.ids@, images@),
    {
        let mut out: Vec<Vec<u8>> = Vec::new();
        assert(byte_views(out@) =~= seq![]);
        if !self.others_stay(&merge.ids) {
            return out;
        }
        let mut marks: Vec<Mark> = Vec::new();
        let mut j: usize = 0;
        assert(mark_views(marks@) =~= seq![]);
        assert(images@.take(0) =~= seq![]);
        while j < images.len()
            invariant
                j <= images@.len(),
                mark_views(marks@) == all_marks(images@.take(j as int)),
            decreases images@.len() - j,
        {
            assert(images@.take(j + 1).drop_last() =~= images@.take(j as int));
            collect_marks(images[j].as_slice(), &mut marks);
            j = j + 1;
        }
        assert(images@.take(j as int) =~= images@);
        let ghost all = mark_views(marks@);
        let ghost idx = self@.index;
        let ghost ids = merge.ids@;
        let mut seen: FxMap<()> = FxMap::new();
        let mut i: usize = marks.len();
        assert(all.skip(i as int) =~= seq![]);
        assert(carried_records(idx, seq![]) =~= seq![]);
        while i > 0
            invariant
                self.wf(),
                i <= marks@.len(),
                all == mark_views(marks@),
                idx == self@.index,
                ids == merge.ids@,
                seen.wf(),
                forall|k: Seq<u8>| #[trigger]
                    seen@.dom().contains(k) <==> needs(idx, ids, all.skip(i as int), k),
                byte_views(out@) == carried_records(idx, chosen(idx, ids, all.skip(i as int))),
            decreases i,
        {
            i = i - 1;
            let ghost tail = all.skip(i as int);
            let ghost rest = all.skip(i + 1);
            assert(tail.skip(1) =~= rest);
            assert(tail[0] == marks@[i as int]@);
            let ghost was = out@;
            let ghost old_seen = seen@;
            let found = marks[i].record(self, &merge.ids);
            proof {
                assert forall|k: Seq<u8>| #[trigger] needs(idx, ids, tail, k) <==> needs(
                    idx,
                    ids,
                    rest,
                    k,
                ) || (found is Some && tail[0].key() == k) by {
                    if needs(idx, ids, rest, k) {
                        let q = choose|q: int|
                            0 <= q < rest.len() && (#[trigger] rest[q]).needed(idx, ids)
                                && rest[q].key() == k;
                        assert(tail[q + 1] == rest[q]);
                    }
                    if needs(idx, ids, tail, k) {
                        let q = choose|q: int|
                            0 <= q < tail.len() && (#[trigger] tail[q]).needed(idx, ids)
                                && tail[q].key() == k;
                        if q > 0 {
                            assert(rest[q - 1] == tail[q]);
                        }
                    }
                }
            }
            if let Some((key, record)) = found {
                if !seen.contains(key.as_slice()) {
                    out.push(record);
                    assert(byte_views(out@) =~= byte_views(was).push(record@));
                    assert(carried_records(idx, chosen(idx, ids, tail)) =~= carried_records(
                        idx,
                        chosen(idx, ids, rest),
                    ).push(record@));
                    seen.insert(key, ());
                }
            }
            assert forall|k: Seq<u8>| #[trigger] seen@.dom().contains(k) <==> needs(
                idx,
                ids,
                all.skip(i as int),
                k,
            ) by {
                assert(old_seen.dom().contains(k) <==> needs(idx, ids, rest, k));
                assert(needs(idx, ids, tail, k) <==> needs(idx, ids, rest, k) || (found is Some
                    && tail[0].key() == k));
            }
        }
        assert(all.skip(0) =~= all);
        out
    }

    /// Whether a sealed file stays that is not among these.
    fn others_stay(&self, ids: &Vec<u32>) -> (r: bool)
        ensures
            r == (without_ids(self@.sealed, ids@).len() > 0),
    {
        let mut i: usize = 0;
        let mut found = false;
        assert(self.sealed@.take(0) =~= seq![]);
        while i < self.sealed.len()
            invariant
                i <= self.sealed@.len(),
                found == (without_ids(self.sealed@.take(i as int), ids@).len() > 0),
            decreases self.sealed@.len() - i,
        {
            assert(self.sealed@.take(i + 1).drop_last() =~= self.sealed@.take(i as int));
            if !contains_id(ids, self.sealed[i].file.file_id) {
                found = true;
            }
            i = i + 1;
        }
        assert(self.sealed@.take(i as int) =~= self.sealed@);
        found
    }
}

/// A good record from `at` on deletes this key.
pub open spec fn says_gone(image: Seq<u8>, at: int, k: Seq<u8>) -> bool
    decreases image.len() - at,
{
    good_at(image, at) && ({
        let h = header_at(image.skip(at));
        ||| h.flags & TOMBSTONE != 0 && body_at(image, at).take(h.key_size as int) == k
        ||| says_gone(image, at + span_at(image, at), k)
    })
}

/// A good record from `at` on changes this key's expiry.
pub open spec fn says_retimed(image: Seq<u8>, at: int, k: Seq<u8>) -> bool
    decreases image.len() - at,
{
    good_at(image, at) && ({
        let h = header_at(image.skip(at));
        ||| h.flags & TOMBSTONE == 0 && h.flags & TTL_UPDATE != 0 && body_at(image, at).take(
            h.key_size as int,
        ) == k
        ||| says_retimed(image, at + span_at(image, at), k)
    })
}

/// How the index `g` of all files stands to the index `l` of those that are not merged, as far as a
/// key goes: they hold the same; or the record stands in a merged file; or a merged file has deleted
/// the key, and it is not there; or a merged file has changed its expiry, and all else is the same.
spec fn traced(g: IndexView, l: IndexView, ids: Seq<u32>, gone: bool, retimed: bool, k: Seq<u8>) -> bool {
    ||| agree(g, l, k)
    ||| g.map.dom().contains(k) && ids.contains(g.map[k].file_id)
    ||| gone && !g.map.dom().contains(k)
    ||| retimed && g.map.dom().contains(k) && g.get(k) == l.get(k) && g.valsep_of(k) == l.valsep_of(k)
}

proof fn lemma_replay_both(
    image: Seq<u8>,
    file_id: u32,
    at: int,
    g: IndexView,
    l: IndexView,
    ids: Seq<u32>,
    gone: bool,
    retimed: bool,
    k: Seq<u8>,
)
    requires
        traced(g, l, ids, gone, retimed, k),
    ensures
        traced(
            replay(image, file_id, at, g).0,
            replay(image, file_id, at, l).0,
            ids,
            gone,
            retimed,
            k,
        ),
    decreases image.len() - at,
{
    if good_at(image, at) {
        let h = header_at(image.skip(at));
        let body = body_at(image, at);
        lemma_replay_both(
            image,
            file_id,
            at + span_at(image, at),
            applied(g, file_id, at as u64, h, body),
            applied(l, file_id, at as u64, h, body),
            ids,
            gone,
            retimed,
            k,
        );
    }
}

proof fn lemma_swept_both(
    image: Seq<u8>,
    at: int,
    g: IndexView,
    l: IndexView,
    ids: Seq<u32>,
    gone: bool,
    retimed: bool,
    k: Seq<u8>,
)
    requires
        traced(g, l, ids, gone, retimed, k),
    ensures
        traced(swept(g, image, at), swept(l, image, at), ids, gone, retimed, k),
    decreases image.len() - at,
{
    if good_at(image, at) {
        let h = header_at(image.skip(at));
        let body = body_at(image, at);
        lemma_swept_both(
            image,
            at + span_at(image, at),
            marked(g, h, body),
            marked(l, h, body),
            ids,
            gone,
            retimed,
            k,
        );
    }
}

proof fn lemma_footer_both(
    entries: Seq<FooterEntryView>,
    file_id: u32,
    g: IndexView,
    l: IndexView,
    ids: Seq<u32>,
    gone: bool,
    retimed: bool,
    k: Seq<u8>,
)
    requires
        traced(g, l, ids, gone, retimed, k),
    ensures
        traced(
            with_footer(g, file_id, entries),
            with_footer(l, file_id, entries),
            ids,
            gone,
            retimed,
            k,
        ),
    decreases entries.len(),
{
    if entries.len() > 0 {
        lemma_footer_both(entries.drop_last(), file_id, g, l, ids, gone, retimed, k);
    }
}

proof fn lemma_replay_merged(
    image: Seq<u8>,
    file_id: u32,
    at: int,
    g: IndexView,
    l: IndexView,
    ids: Seq<u32>,
    gone: bool,
    retimed: bool,
    k: Seq<u8>,
)
    requires
        traced(g, l, ids, gone, retimed, k),
        ids.contains(file_id),
        says_gone(image, at, k) ==> gone,
        says_retimed(image, at, k) ==> retimed,
    ensures
        traced(replay(image, file_id, at, g).0, l, ids, gone, retimed, k),
    decreases image.len() - at,
{
    if good_at(image, at) {
        let h = header_at(image.skip(at));
        let body = body_at(image, at);
        lemma_replay_merged(
            image,
            file_id,
            at + span_at(image, at),
            applied(g, file_id, at as u64, h, body),
            l,
            ids,
            gone,
            retimed,
            k,
        );
    }
}

proof fn lemma_swept_merged(
    image: Seq<u8>,
    at: int,
    g: IndexView,
    l: IndexView,
    ids: Seq<u32>,
    gone: bool,
    retimed: bool,
    k: Seq<u8>,
)
    requires
        traced(g, l, ids, gone, retimed, k),
        says_gone(image, at, k) ==> gone,
        says_retimed(image, at, k) ==> retimed,
    ensures
        traced(swept(g, image, at), l, ids, gone, retimed, k),
    decreases image.len() - at,
{
    if good_at(image, at) {
        let h = header_at(image.skip(at));
        let body = body_at(image, at);
        lemma_swept_merged(
            image,
            at + span_at(image, at),
            marked(g, h, body),
            l,
            ids,
            gone,
            retimed,
            k,
        );
    }
}

proof fn lemma_footer_merged(
    entries: Seq<FooterEntryView>,
    file_id: u32,
    g: IndexView,
    l: IndexView,
    ids: Seq<u32>,
    gone: bool,
    retimed: bool,
    k: Seq<u8>,
)
    requires
        traced(g, l, ids, gone, retimed, k),
        ids.contains(file_id),
    ensures
        traced(with_footer(g, file_id, entries), l, ids, gone, retimed, k),
    decreases entries.len(),
{
    if entries.len() > 0 {
        lemma_footer_merged(entries.drop_last(), file_id, g, l, ids, gone, retimed, k);
    }
}

proof fn lemma_traced(
    files: Seq<(u32, Vec<u8>)>,
    keep: Seq<bool>,
    ids: Seq<u32>,
    gone: bool,
    retimed: bool,
    k: Seq<u8>,
)
    requires
        forall|i: int| 0 <= i < files.len() && !keep[i] ==> ids.contains((#[trigger] files[i]).0),
        forall|i: int|
            0 <= i < files.len() && ids.contains((#[trigger] files[i]).0) && says_gone(
                records_of(files[i].1@),
                0,
                k,
            ) ==> gone,
        forall|i: int|
            0 <= i < files.len() && ids.contains((#[trigger] files[i]).0) && says_retimed(
                records_of(files[i].1@),
                0,
                k,
            ) ==> retimed,
    ensures
        traced(
            gathered(files).index,
            gathered(kept(files, keep)).index,
            ids,
            gone,
            retimed,
            k,
        ),
    decreases files.len(),
{
    if files.len() > 0 {
        let head = files.drop_last();
        let last = files[files.len() - 1];
        assert(last == files.last());
        assert forall|i: int|
            0 <= i < head.len() && ids.contains((#[trigger] head[i]).0) && says_gone(
                records_of(head[i].1@),
                0,
                k,
            ) implies gone by {
            assert(files[i] == head[i]);
        }
        assert forall|i: int|
            0 <= i < head.len() && ids.contains((#[trigger] head[i]).0) && says_retimed(
                records_of(head[i].1@),
                0,
                k,
            ) implies retimed by {
            assert(files[i] == head[i]);
        }
        assert forall|i: int| 0 <= i < head.len() && !keep[i] implies ids.contains(
            (#[trigger] head[i]).0,
        ) by {
            assert(files[i] == head[i]);
        }
        lemma_traced(head, keep, ids, gone, retimed, k);
        let g = gathered(head).index;
        let left = kept(head, keep);
        let l = gathered(left).index;
        let image = last.1@;
        let records = records_of(image);
        let id = last.0;
        if !keep[files.len() - 1] {
            assert(ids.contains(last.0));
            match footer_result(image) {
                Ok(Some(entries)) => {
                    lemma_swept_merged(records, 0, g, l, ids, gone, retimed, k);
                    lemma_footer_merged(
                        entries,
                        id,
                        swept(g, records, 0),
                        l,
                        ids,
                        gone,
                        retimed,
                        k,
                    );
                },
                _ => {
                    lemma_replay_merged(image, id, 0, g, l, ids, gone, retimed, k);
                },
            }
        } else {
            assert(left.push(last).drop_last() =~= left);
            match footer_result(image) {
                Ok(Some(entries)) => {
                    lemma_swept_both(records, 0, g, l, ids, gone, retimed, k);
                    lemma_footer_both(
                        entries,
                        id,
                        swept(g, records, 0),
                        swept(l, records, 0),
                        ids,
                        gone,
                        retimed,
                        k,
                    );
                },
                _ => {
                    lemma_replay_both(image, id, 0, g, l, ids, gone, retimed, k);
                },
            }
        }
    }
}

/// The index `l` of the later files holds of a key what the index `g` of all files does, or nothing.
spec fn late(g: IndexView, l: IndexView, k: Seq<u8>) -> bool {
    ||| agree(g, l, k)
    ||| l.get(k) is None && l.ttl_of(k) is None && l.valsep_of(k) is None
}

proof fn lemma_replay_late(
    image: Seq<u8>,
    file_id: u32,
    at: int,
    g: IndexView,
    l: IndexView,
    k: Seq<u8>,
)
    requires
        late(g, l, k),
    ensures
        late(replay(image, file_id, at, g).0, replay(image, file_id, at, l).0, k),
    decreases image.len() - at,
{
    if good_at(image, at) {
        let h = header_at(image.skip(at));
        let body = body_at(image, at);
        lemma_replay_late(
            image,
            file_id,
            at + span_at(image, at),
            applied(g, file_id, at as u64, h, body),
            applied(l, file_id, at as u64, h, body),
            k,
        );
    }
}

proof fn lemma_swept_late(image: Seq<u8>, at: int, g: IndexView, l: IndexView, k: Seq<u8>)
    requires
        late(g, l, k),
    ensures
        late(swept(g, image, at), swept(l, image, at), k),
    decreases image.len() - at,
{
    if good_at(image, at) {
        let h = header_at(image.skip(at));
        let body = body_at(image, at);
        lemma_swept_late(image, at + span_at(image, at), marked(g, h, body), marked(l, h, body), k);
    }
}

proof fn lemma_footer_late(
    entries: Seq<FooterEntryView>,
    file_id: u32,
    g: IndexView,
    l: IndexView,
    k: Seq<u8>,
)
    requires
        late(g, l, k),
    ensures
        late(with_footer(g, file_id, entries), with_footer(l, file_id, entries), k),
    decreases entries.len(),
{
    if entries.len() > 0 {
        lemma_footer_late(entries.drop_last(), file_id, g, l, k);
    }
}

/// The flags are set from `n` on.
pub open spec fn from_on(keep: Seq<bool>, n: int) -> bool {
    forall|i: int| 0 <= i < keep.len() ==> #[trigger] keep[i] == (i >= n)
}

proof fn lemma_late(files: Seq<(u32, Vec<u8>)>, keep: Seq<bool>, n: int, k: Seq<u8>)
    requires
        files.len() <= keep.len(),
        from_on(keep, n),
    ensures
        late(gathered(files).index, gathered(kept(files, keep)).index, k),
        files.len() <= n ==> kept(files, keep).len() == 0,
    decreases files.len(),
{
    if files.len() > 0 {
        let head = files.drop_last();
        let last = files.last();
        lemma_late(head, keep, n, k);
        let g = gathered(head).index;
        let left = kept(head, keep);
        let l = gathered(left).index;
        let image = last.1@;
        assert(keep[files.len() - 1] == (files.len() - 1 >= n));
        if keep[files.len() - 1] {
            assert(left.push(last).drop_last() =~= left);
            match footer_result(image) {
                Ok(Some(entries)) => {
                    let records = records_of(image);
                    lemma_swept_late(records, 0, g, l, k);
                    lemma_footer_late(
                        entries,
                        last.0,
                        swept(g, records, 0),
                        swept(l, records, 0),
                        k,
                    );
                },
                _ => {
                    lemma_replay_late(image, last.0, 0, g, l, k);
                },
            }
        }
    }
}

/// The index has an expiry or a blob of this key only where the key is there.
spec fn tidy_at(idx: IndexView, k: Seq<u8>) -> bool {
    !idx.map.dom().contains(k) ==> idx.ttl_of(k) is None && idx.valsep_of(k) is None
}

proof fn lemma_replay_tidy(image: Seq<u8>, file_id: u32, at: int, idx: IndexView, k: Seq<u8>)
    requires
        tidy_at(idx, k),
    ensures
        tidy_at(replay(image, file_id, at, idx).0, k),
    decreases image.len() - at,
{
    if good_at(image, at) {
        lemma_replay_tidy(
            image,
            file_id,
            at + span_at(image, at),
            applied(idx, file_id, at as u64, header_at(image.skip(at)), body_at(image, at)),
            k,
        );
    }
}

proof fn lemma_swept_tidy(image: Seq<u8>, at: int, idx: IndexView, k: Seq<u8>)
    requires
        tidy_at(idx, k),
    ensures
        tidy_at(swept(idx, image, at), k),
    decreases image.len() - at,
{
    if good_at(image, at) {
        lemma_swept_tidy(
            image,
            at + span_at(image, at),
            marked(idx, header_at(image.skip(at)), body_at(image, at)),
            k,
        );
    }
}

proof fn lemma_footer_tidy(idx: IndexView, file_id: u32, entries: Seq<FooterEntryView>, k: Seq<u8>)
    requires
        tidy_at(idx, k),
    ensures
        tidy_at(with_footer(idx, file_id, entries), k),
    decreases entries.len(),
{
    if entries.len() > 0 {
        lemma_footer_tidy(idx, file_id, entries.drop_last(), k);
    }
}

proof fn lemma_gathered_tidy(files: Seq<(u32, Vec<u8>)>, k: Seq<u8>)
    ensures
        tidy_at(gathered(files).index, k),
    decreases files.len(),
{
    if files.len() > 0 {
        let head = gathered(files.drop_last()).index;
        let (id, v) = files.last();
        lemma_gathered_tidy(files.drop_last(), k);
        match footer_result(v@) {
            Ok(Some(entries)) => {
                lemma_swept_tidy(records_of(v@), 0, head, k);
                lemma_footer_tidy(swept(head, records_of(v@), 0), id, entries, k);
            },
            _ => {
                lemma_replay_tidy(v@, id, 0, head, k);
            },
        }
    }
}

/// A byte string that is one good record.
pub open spec fn whole(rec: Seq<u8>) -> bool {
    good_at(rec, 0) && span_at(rec, 0) == rec.len()
}

/// The key of a record.
pub open spec fn record_key(rec: Seq<u8>) -> Seq<u8> {
    rec.skip(HEADER_LEN as int).take(header_at(rec).key_size as int)
}

/// What several records say of keys that are there already, one after the other.
spec fn swept_parts(idx: IndexView, parts: Seq<Vec<u8>>) -> IndexView
    decreases parts.len(),
{
    if parts.len() == 0 {
        idx
    } else {
        marked(
            swept_parts(idx, parts.drop_last()),
            header_at(parts.last()@),
            parts.last()@.skip(HEADER_LEN as int),
        )
    }
}

proof fn lemma_swept_parts(idx: IndexView, parts: Seq<Vec<u8>>)
    requires
        forall|i: int| 0 <= i < parts.len() ==> whole((#[trigger] parts[i])@),
    ensures
        replay(joined(parts), 0, 0, idx).1 == joined(parts).len(),
        swept(idx, joined(parts), 0) == swept_parts(idx, parts),
    decreases parts.len(),
{
    if parts.len() > 0 {
        let head = parts.drop_last();
        assert forall|i: int| 0 <= i < head.len() implies whole((#[trigger] head[i])@) by {
            assert(head[i] == parts[i]);
        }
        lemma_swept_parts(idx, head);
        let last = parts[parts.len() - 1]@;
        assert(whole(last));
        lemma_replay_append(joined(head), last, 0, 0, idx);
        lemma_swept_append(joined(head), last, 0, 0, idx, idx);
    } else {
        assert(joined(parts).skip(0).len() == 0);
    }
}

proof fn lemma_joined_both(a: Seq<Vec<u8>>, b: Seq<Vec<u8>>)
    ensures
        joined(a + b) == joined(a) + joined(b),
    decreases b.len(),
{
    if b.len() > 0 {
        lemma_joined_both(a, b.drop_last());
        assert((a + b).drop_last() =~= a + b.drop_last());
        assert(joined(a + b) =~= joined(a) + joined(b));
    } else {
        assert(a + b =~= a);
        assert(joined(a) + joined(b) =~= joined(a));
    }
}

/// The record of a put.
pub open spec fn is_put(rec: Seq<u8>) -> bool {
    whole(rec) && header_at(rec).flags & TOMBSTONE == 0 && header_at(rec).flags & TTL_UPDATE == 0
}

/// A record that says this of its key: that it is gone, where the index has it not, and when it
/// expires, where the index has it.
spec fn says(rec: Seq<u8>, idx: IndexView) -> bool {
    let k = record_key(rec);
    let h = header_at(rec);
    &&& whole(rec)
    &&& if idx.map.dom().contains(k) {
        h.flags & TOMBSTONE == 0 && h.flags & TTL_UPDATE != 0 && expiry_of(h) == idx.ttl_of(k)
    } else {
        h.flags & TOMBSTONE != 0
    }
}

/// One of the records speaks of this key.
spec fn speaks_of(parts: Seq<Vec<u8>>, k: Seq<u8>) -> bool {
    exists|i: int| 0 <= i < parts.len() && record_key((#[trigger] parts[i])@) == k
}

/// What records that say how things stand make of a key.
proof fn lemma_parts_settle(l: IndexView, idx: IndexView, parts: Seq<Vec<u8>>, k: Seq<u8>)
    requires
        forall|i: int| 0 <= i < parts.len() ==> says((#[trigger] parts[i])@, idx),
    ensures
        ({
            let got = swept_parts(l, parts);
            if !speaks_of(parts, k) {
                agree(got, l, k)
            } else if idx.map.dom().contains(k) {
                got.get(k) == l.get(k) && got.valsep_of(k) == l.valsep_of(k) && (
                l.map.dom().contains(k) ==> got.ttl_of(k) == idx.ttl_of(k))
            } else {
                got.get(k) is None && got.ttl_of(k) is None && got.valsep_of(k) is None
            }
        }),
    decreases parts.len(),
{
    if parts.len() > 0 {
        let head = parts.drop_last();
        let last = parts[parts.len() - 1];
        assert(last == parts.last());
        assert forall|i: int| 0 <= i < head.len() implies says((#[trigger] head[i])@, idx) by {
            assert(head[i] == parts[i]);
        }
        lemma_parts_settle(l, idx, head, k);
        assert(says(last@, idx));
        if speaks_of(head, k) {
            let i = choose|i: int| 0 <= i < head.len() && record_key((#[trigger] head[i])@) == k;
            assert(parts[i] == head[i]);
        }
        if speaks_of(parts, k) && !speaks_of(head, k) {
            let i = choose|i: int| 0 <= i < parts.len() && record_key((#[trigger] parts[i])@) == k;
            if i < head.len() {
                assert(head[i] == parts[i]);
            }
        }
        if record_key(last@) == k {
            assert(speaks_of(parts, k));
        }
    }
}

proof fn lemma_puts_say_nothing(l: IndexView, parts: Seq<Vec<u8>>)
    requires
        forall|i: int| 0 <= i < parts.len() ==> is_put((#[trigger] parts[i])@),
    ensures
        swept_parts(l, parts) == l,
    decreases parts.len(),
{
    if parts.len() > 0 {
        let head = parts.drop_last();
        assert forall|i: int| 0 <= i < head.len() implies is_put((#[trigger] head[i])@) by {
            assert(head[i] == parts[i]);
        }
        lemma_puts_say_nothing(l, head);
        assert(is_put(parts[parts.len() - 1]@));
    }
}

proof fn lemma_swept_parts_both(l: IndexView, a: Seq<Vec<u8>>, b: Seq<Vec<u8>>)
    ensures
        swept_parts(l, a + b) == swept_parts(swept_parts(l, a), b),
    decreases b.len(),
{
    if b.len() > 0 {
        lemma_swept_parts_both(l, a, b.drop_last());
        assert((a + b).drop_last() =~= a + b.drop_last());
    } else {
        assert(a + b =~= a);
    }
}

/// A mark that was found is what its record says.
spec fn sound(m: MarkView) -> bool {
    m matches MarkView::Gone { key, record } ==> whole(record) && record_key(record) == key
        && header_at(record).flags & TOMBSTONE != 0
}

proof fn lemma_marks_sound(image: Seq<u8>, at: int, k: Seq<u8>)
    requires
        0 <= at <= image.len(),
    ensures
        forall|i: int|
            0 <= i < marks_from(image, at).len() ==> sound(#[trigger] marks_from(image, at)[i]),
        says_gone(image, at, k) ==> exists|i: int|
            0 <= i < marks_from(image, at).len() && (#[trigger] marks_from(image, at)[i]) is Gone
                && marks_from(image, at)[i].key() == k,
        says_retimed(image, at, k) ==> exists|i: int|
            0 <= i < marks_from(image, at).len() && (#[trigger] marks_from(image, at)[i]) is Retimed
                && marks_from(image, at)[i].key() == k,
    decreases image.len() - at,
{
    if good_at(image, at) {
        let h = header_at(image.skip(at));
        let n = span_at(image, at);
        let key = body_at(image, at).take(h.key_size as int);
        let rec = image.subrange(at, at + n);
        let first = mark_of(h, key, rec);
        let rest = marks_from(image, at + n);
        let all = marks_from(image, at);
        lemma_marks_sound(image, at + n, k);
        lemma_cut_record(image, at);
        assert forall|i: int| 0 <= i < all.len() implies sound(#[trigger] all[i]) by {
            if i >= first.len() {
                assert(all[i] == rest[i - first.len()]);
            }
        }
        if says_gone(image, at, k) {
            if h.flags & TOMBSTONE != 0 && key == k {
                assert(all[0] is Gone && all[0].key() == k);
            } else {
                let i = choose|i: int|
                    0 <= i < rest.len() && (#[trigger] rest[i]) is Gone && rest[i].key() == k;
                assert(all[first.len() + i] == rest[i]);
            }
        }
        if says_retimed(image, at, k) {
            if h.flags & TOMBSTONE == 0 && h.flags & TTL_UPDATE != 0 && key == k {
                assert(all[0] is Retimed && all[0].key() == k);
            } else {
                let i = choose|i: int|
                    0 <= i < rest.len() && (#[trigger] rest[i]) is Retimed && rest[i].key() == k;
                assert(all[first.len() + i] == rest[i]);
            }
        }
    }
}

/// A good record that is cut out of a file is one.
proof fn lemma_cut_record(image: Seq<u8>, at: int)
    requires
        good_at(image, at),
    ensures
        ({
            let rec = image.subrange(at, at + span_at(image, at));
            &&& whole(rec)
            &&& header_at(rec) == header_at(image.skip(at))
            &&& record_key(rec) == body_at(image, at).take(header_at(image.skip(at)).key_size as int)
        }),
{
    let n = span_at(image, at);
    let rec = image.subrange(at, at + n);
    let a = image.skip(at);
    assert(rec.skip(0) =~= rec);
    assert(a.subrange(0, 8) =~= rec.subrange(0, 8));
    assert(a.subrange(8, 16) =~= rec.subrange(8, 16));
    assert(a.subrange(17, 25) =~= rec.subrange(17, 25));
    assert(a.subrange(25, 29) =~= rec.subrange(25, 29));
    assert(a.subrange(29, 33) =~= rec.subrange(29, 33));
    assert(a.subrange(33, 37) =~= rec.subrange(33, 37));
    assert(a.subrange(8, n) =~= rec.subrange(8, n));
    assert(rec.skip(HEADER_LEN as int) =~= body_at(image, at));
}

/// A mark of this key, of a deletion or of an expiry, is among the marks.
spec fn told(marks: Seq<MarkView>, gone: bool, k: Seq<u8>) -> bool {
    exists|i: int|
        0 <= i < marks.len() && (#[trigger] marks[i]) is Gone == gone && marks[i].key() == k
}

proof fn lemma_all_marks(images: Seq<Vec<u8>>, j: int, k: Seq<u8>)
    requires
        0 <= j < images.len(),
    ensures
        says_gone(records_of(images[j]@), 0, k) ==> told(all_marks(images), true, k),
        says_retimed(records_of(images[j]@), 0, k) ==> told(all_marks(images), false, k),
    decreases images.len(),
{
    let head = all_marks(images.drop_last());
    let last = marks_from(records_of(images.last()@), 0);
    let all = all_marks(images);
    if j == images.len() - 1 {
        lemma_marks_sound(records_of(images[j]@), 0, k);
        if says_gone(records_of(images[j]@), 0, k) {
            let i = choose|i: int|
                0 <= i < last.len() && (#[trigger] last[i]) is Gone && last[i].key() == k;
            assert(all[head.len() + i] == last[i]);
        }
        if says_retimed(records_of(images[j]@), 0, k) {
            let i = choose|i: int|
                0 <= i < last.len() && (#[trigger] last[i]) is Retimed && last[i].key() == k;
            assert(all[head.len() + i] == last[i]);
        }
    } else {
        lemma_all_marks(images.drop_last(), j, k);
        if told(head, true, k) {
            let i = choose|i: int|
                0 <= i < head.len() && (#[trigger] head[i]) is Gone == true && head[i].key() == k;
            assert(all[i] == head[i]);
        }
        if told(head, false, k) {
            let i = choose|i: int|
                0 <= i < head.len() && (#[trigger] head[i]) is Gone == false && head[i].key() == k;
            assert(all[i] == head[i]);
        }
    }
}

proof fn lemma_all_marks_sound(images: Seq<Vec<u8>>)
    ensures
        forall|i: int| 0 <= i < all_marks(images).len() ==> sound(#[trigger] all_marks(images)[i]),
    decreases images.len(),
{
    if images.len() > 0 {
        lemma_all_marks_sound(images.drop_last());
        lemma_marks_sound(records_of(images.last()@), 0, seq![]);
        let head = all_marks(images.drop_last());
        let last = marks_from(records_of(images.last()@), 0);
        let all = all_marks(images);
        assert forall|i: int| 0 <= i < all.len() implies sound(#[trigger] all[i]) by {
            if i < head.len() {
                assert(all[i] == head[i]);
            } else {
                assert(all[i] == last[i - head.len()]);
            }
        }
    }
}

proof fn lemma_chosen(idx: IndexView, ids: Seq<u32>, marks: Seq<MarkView>, k: Seq<u8>)
    requires
        forall|i: int| 0 <= i < marks.len() ==> sound(#[trigger] marks[i]),
    ensures
        forall|j: int|
            0 <= j < chosen(idx, ids, marks).len() ==> sound(
                #[trigger] chosen(idx, ids, marks)[j],
            ) && chosen(idx, ids, marks)[j].needed(idx, ids),
        needs(idx, ids, marks, k) ==> exists|j: int|
            0 <= j < chosen(idx, ids, marks).len() && (#[trigger] chosen(idx, ids, marks)[j]).key()
                == k,
    decreases marks.len(),
{
    if marks.len() > 0 {
        let tail = marks.skip(1);
        assert forall|i: int| 0 <= i < tail.len() implies sound(#[trigger] tail[i]) by {
            assert(tail[i] == marks[i + 1]);
        }
        lemma_chosen(idx, ids, tail, k);
        let rest = chosen(idx, ids, tail);
        let all = chosen(idx, ids, marks);
        assert(sound(marks[0]));
        assert forall|j: int| 0 <= j < all.len() implies sound(#[trigger] all[j]) && all[j].needed(
            idx,
            ids,
        ) by {
            if j < rest.len() {
                assert(all[j] == rest[j]);
            }
        }
        if needs(idx, ids, marks, k) {
            if needs(idx, ids, tail, k) {
                let j = choose|j: int| 0 <= j < rest.len() && (#[trigger] rest[j]).key() == k;
                assert(all[j] == rest[j]);
            } else {
                let i = choose|i: int|
                    0 <= i < marks.len() && (#[trigger] marks[i]).needed(idx, ids)
                        && marks[i].key() == k;
                if i > 0 {
                    assert(tail[i - 1] == marks[i]);
                }
                assert(all[rest.len() as int] == marks[0]);
            }
        }
    }
}

/// What is carried over for a mark says how things stand with its key.
proof fn lemma_carried_says(m: MarkView, idx: IndexView, ids: Seq<u32>)
    requires
        sound(m),
        m.needed(idx, ids),
    ensures
        says(m.carried(idx), idx),
        record_key(m.carried(idx)) == m.key(),
{
    if let MarkView::Retimed { key } = m {
        let ttl = idx.ttl_of(key);
        let t = idx.map[key].tstamp_ms;
        let rec = m.carried(idx);
        lemma_written_is_good(t, ttl_flags(ttl), expiry_field(ttl), key, seq![], seq![]);
        lemma_record_round_trip(t, ttl_flags(ttl), expiry_field(ttl), key, seq![], seq![]);
        assert(rec.skip(HEADER_LEN as int).take(key.len() as int) =~= key);
        assert(4u8 & 1u8 == 0 && 4u8 & 4u8 != 0 && 4u8 & 2u8 == 0) by (bit_vector);
        assert((4u8 | 2u8) & 1u8 == 0 && (4u8 | 2u8) & 4u8 != 0 && (4u8 | 2u8) & 2u8 != 0)
            by (bit_vector);
    }
}

/// A live key with this name is among the live keys.
spec fn has_live(live: Seq<LiveView>, k: Seq<u8>) -> bool {
    exists|i: int| 0 <= i < live.len() && (#[trigger] live[i]).key == k
}

proof fn lemma_has_live(items: Seq<(Vec<u8>, IndexEntry)>, idx: IndexView, ids: Seq<u32>, k: Seq<u8>)
    requires
        forall|i: int| 0 <= i < items.len() ==> idx.get((#[trigger] items[i]).0@) == Some(items[i].1),
    ensures
        has_live(live_in(items, idx, ids), k) <==> has_key(items, k) && ids.contains(
            idx.map[k].file_id,
        ),
    decreases items.len(),
{
    let all = live_in(items, idx, ids);
    if items.len() > 0 {
        let head = items.drop_last();
        let last = items[items.len() - 1];
        let inner = live_in(head, idx, ids);
        assert forall|i: int| 0 <= i < head.len() implies idx.get((#[trigger] head[i]).0@) == Some(
            head[i].1,
        ) by {
            assert(head[i] == items[i]);
        }
        lemma_has_live(head, idx, ids, k);
        assert(idx.get(last.0@) == Some(last.1));
        if has_key(head, k) {
            let i = choose|i: int| 0 <= i < head.len() && (#[trigger] head[i]).0@ == k;
            assert(items[i].0@ == k);
        }
        if has_key(items, k) && !has_key(head, k) {
            let i = choose|i: int| 0 <= i < items.len() && (#[trigger] items[i]).0@ == k;
            if i < head.len() {
                assert(head[i].0@ == k);
            }
        }
        if last.0@ == k {
            assert(items[items.len() - 1].0@ == k);
        }
        if has_live(inner, k) {
            let i = choose|i: int| 0 <= i < inner.len() && (#[trigger] inner[i]).key == k;
            assert(all[i] == inner[i]);
        }
        if ids.contains(last.1.file_id) {
            assert(all[inner.len() as int].key == last.0@);
        }
        if has_live(all, k) && !has_live(inner, k) {
            let i = choose|i: int| 0 <= i < all.len() && (#[trigger] all[i]).key == k;
            if i < inner.len() {
                assert(inner[i].key == k);
            }
        }
    }
}

/// What the footer of a merged file gives for a key.
proof fn lemma_merged_footer_gives(
    base: IndexView,
    idx: IndexView,
    next_id: u32,
    live: Seq<LiveView>,
    records: Seq<Vec<u8>>,
    entries: Seq<IndexEntry>,
    n: int,
    k: Seq<u8>,
)
    requires
        live_is_current(idx, live),
        entries.len() == live.len(),
        forall|i: int|
            0 <= i < live.len() ==> #[trigger] entries[i] == moved_entry(next_id, live, records, i),
        0 <= n <= live.len(),
    ensures
        ({
            let got = with_footer(base, next_id, merged_footer(next_id, live, records).take(n));
            let moved = moved_index(idx, live, entries, n);
            if has_live(live.take(n), k) {
                agree(got, moved, k)
            } else {
                agree(got, base, k) && agree(moved, idx, k)
            }
        }),
    decreases n,
{
    let footer = merged_footer(next_id, live, records);
    if n > 0 {
        lemma_merged_footer_gives(base, idx, next_id, live, records, entries, n - 1, k);
        assert(footer.take(n).drop_last() =~= footer.take(n - 1));
        assert(footer.take(n).last() == footer[n - 1]);
        lemma_merge_keeps_keys(idx, next_id, live, records, entries, n - 1);
        let l = live[n - 1];
        assert(entries[n - 1] == moved_entry(next_id, live, records, n - 1));
        assert(live.take(n)[n - 1] == l);
        if let Some(h) = l.value_hash {
            lemma_hash_of(h);
        }
        if has_live(live.take(n - 1), k) {
            let i = choose|i: int|
                0 <= i < live.take(n - 1).len() && (#[trigger] live.take(n - 1)[i]).key == k;
            assert(live.take(n)[i].key == k);
        }
        if has_live(live.take(n), k) && !has_live(live.take(n - 1), k) {
            let i = choose|i: int|
                0 <= i < live.take(n).len() && (#[trigger] live.take(n)[i]).key == k;
            if i < n - 1 {
                assert(live.take(n - 1)[i].key == k);
            }
        }
    }
}

proof fn lemma_no_run_left(runs: Seq<Run>, ids: Seq<u32>, i: int)
    requires
        without_ids(runs, ids).len() == 0,
        0 <= i < runs.len(),
    ensures
        ids.contains(runs[i].file.file_id),
    decreases runs.len(),
{
    if i < runs.len() - 1 {
        lemma_no_run_left(runs.drop_last(), ids, i);
    }
}

/// These are the files of the log's runs, and recovery finds in them what is running.
pub open spec fn files_of(log: NamespaceLog, files: Seq<(u32, Vec<u8>)>) -> bool {
    &&& gathered(files).index == log@.index
    &&& forall|i: int|
        0 <= i < files.len() ==> exists|j: int|
            0 <= j < log@.sealed.len() && (#[trigger] log@.sealed[j]).file.file_id == (
            #[trigger] files[i]).0
}

/// These are the contents of all files with one of these ids.
pub open spec fn contents_of(
    files: Seq<(u32, Vec<u8>)>,
    ids: Seq<u32>,
    images: Seq<Vec<u8>>,
) -> bool {
    forall|i: int|
        0 <= i < files.len() && ids.contains((#[trigger] files[i]).0) ==> exists|j: int|
            0 <= j < images.len() && (#[trigger] images[j])@ == files[i].1@
}

/// Which files a merge may leave on disk besides the merged one: of the merged files any, but where
/// no other file stays only the later ones, as they are unlinked in order.
pub open spec fn may_stay(
    s: LogView,
    files: Seq<(u32, Vec<u8>)>,
    ids: Seq<u32>,
    keep: Seq<bool>,
) -> bool {
    &&& keep.len() == files.len()
    &&& forall|i: int| 0 <= i < files.len() && !keep[i] ==> ids.contains((#[trigger] files[i]).0)
    &&& without_ids(s.sealed, ids).len() == 0 ==> exists|n: int| #[trigger] from_on(keep, n)
}

/// What the files that stay, and what is carried over, say of a key whose record is not moved.
proof fn lemma_rest_settles(
    log: NamespaceLog,
    ids: Seq<u32>,
    files: Seq<(u32, Vec<u8>)>,
    keep: Seq<bool>,
    images: Seq<Vec<u8>>,
    carried: Seq<Vec<u8>>,
    k: Seq<u8>,
)
    requires
        files_of(log, files),
        may_stay(log@, files, ids, keep),
        contents_of(files, ids, images),
        byte_views(carried) == carried_over(log@, ids, images),
        log@.index.map.dom().contains(k) ==> fits(k, seq![], seq![]) && !ids.contains(
            log@.index.map[k].file_id,
        ),
    ensures
        forall|i: int| 0 <= i < carried.len() ==> says((#[trigger] carried[i])@, log@.index),
        agree(swept_parts(gathered(kept(files, keep)).index, carried), log@.index, k),
{
    let idx = log@.index;
    let l = gathered(kept(files, keep)).index;
    let marks = all_marks(images);
    let gone = told(marks, true, k);
    let retimed = told(marks, false, k);
    assert forall|i: int|
        0 <= i < files.len() && ids.contains((#[trigger] files[i]).0) && says_gone(
            records_of(files[i].1@),
            0,
            k,
        ) implies gone by {
        let j = choose|j: int| 0 <= j < images.len() && (#[trigger] images[j])@ == files[i].1@;
        lemma_all_marks(images, j, k);
    }
    assert forall|i: int|
        0 <= i < files.len() && ids.contains((#[trigger] files[i]).0) && says_retimed(
            records_of(files[i].1@),
            0,
            k,
        ) implies retimed by {
        let j = choose|j: int| 0 <= j < images.len() && (#[trigger] images[j])@ == files[i].1@;
        lemma_all_marks(images, j, k);
    }
    lemma_traced(files, keep, ids, gone, retimed, k);
    lemma_gathered_tidy(files, k);
    assert(byte_views(carried).len() == carried.len());
    if without_ids(log@.sealed, ids).len() == 0 {
        assert forall|i: int| 0 <= i < files.len() implies ids.contains((#[trigger] files[i]).0) by {
            let j = choose|j: int|
                0 <= j < log@.sealed.len() && (#[trigger] log@.sealed[j]).file.file_id
                    == files[i].0;
            lemma_no_run_left(log@.sealed, ids, j);
        }
        let none = Seq::new(files.len(), |i: int| false);
        assert(from_on(none, files.len() as int));
        lemma_late(files, none, files.len() as int, k);
        assert(kept(files, none) =~= seq![]);
        lemma_traced(files, none, ids, gone, retimed, k);
        let n = choose|n: int| #[trigger] from_on(keep, n);
        lemma_late(files, keep, n, k);
        assert(carried.len() == 0);
    } else {
        let pick = chosen(idx, ids, marks);
        lemma_all_marks_sound(images);
        lemma_chosen(idx, ids, marks, k);
        assert(carried.len() == pick.len());
        assert forall|i: int| 0 <= i < carried.len() implies says((#[trigger] carried[i])@, idx)
            && record_key(carried[i]@) == pick[i].key() by {
            assert(byte_views(carried)[i] == carried_records(idx, pick)[i]);
            assert(sound(pick[i]) && pick[i].needed(idx, ids));
            lemma_carried_says(pick[i], idx, ids);
        }
        lemma_parts_settle(l, idx, carried, k);
        if needs(idx, ids, marks, k) {
            let j = choose|j: int| 0 <= j < pick.len() && (#[trigger] pick[j]).key() == k;
            assert(record_key(carried[j]@) == k);
            assert(speaks_of(carried, k));
        }
        if gone && !idx.map.dom().contains(k) {
            let i = choose|i: int|
                0 <= i < marks.len() && (#[trigger] marks[i]) is Gone == true && marks[i].key()
                    == k;
            assert(marks[i].needed(idx, ids));
            assert(needs(idx, ids, marks, k));
        }
        if retimed && idx.map.dom().contains(k) {
            let i = choose|i: int|
                0 <= i < marks.len() && (#[trigger] marks[i]) is Gone == false && marks[i].key()
                    == k;
            assert(marks[i].needed(idx, ids));
            assert(needs(idx, ids, marks, k));
        }
    }
}

/// Recovery behind a merge: the files that stay and the merged file open with the index that the
/// merge leaves, where the files before it opened with the index that was running. Deletions and
/// changes of expiry that only merged files spoke of are not lost. Merged files that are still on
/// disk, because a crash came before they were unlinked, change nothing.
pub proof fn lemma_merged_files_recover(
    log: NamespaceLog,
    ids: Seq<u32>,
    next_id: u32,
    files: Seq<(u32, Vec<u8>)>,
    keep: Seq<bool>,
    images: Seq<Vec<u8>>,
    records: Seq<Vec<u8>>,
    carried: Seq<Vec<u8>>,
    entries: Seq<IndexEntry>,
    merged: Vec<u8>,
)
    requires
        log.wf(),
        files_of(log, files),
        may_stay(log@, files, ids, keep),
        contents_of(files, ids, images),
        forall|k: Seq<u8>| #[trigger]
            log@.index.map.dom().contains(k) ==> fits(k, seq![], seq![]),
        records_fit(live_in(log.index.items(), log@.index, ids), records),
        forall|i: int| 0 <= i < records.len() ==> is_put((#[trigger] records[i])@),
        byte_views(carried) == carried_over(log@, ids, images),
        entries.len() == records.len(),
        forall|i: int|
            0 <= i < entries.len() ==> #[trigger] entries[i] == moved_entry(
                next_id,
                live_in(log.index.items(), log@.index, ids),
                records,
                i,
            ),
        merged@ == merged_image(
            next_id,
            live_in(log.index.items(), log@.index, ids),
            records,
            carried,
        ),
        merged@.len() <= u64::MAX,
    ensures
        gathered(kept(files, keep).push((next_id, merged))).index == moved_index(
            log@.index,
            live_in(log.index.items(), log@.index, ids),
            entries,
            entries.len() as int,
        ),
{
    let idx = log@.index;
    let items = log.index.items();
    let live = live_in(items, idx, ids);
    let left = kept(files, keep);
    let l = gathered(left).index;
    let n = live.len() as int;
    log.index.lemma_items();
    lemma_reclaim_live_is_current(log, ids);
    assert forall|i: int| 0 <= i < live.len() implies (#[trigger] live[i]).key.len()
        <= u32::MAX by {
        assert(idx.get(live[i].key) == Some(live[i].entry));
        assert(idx.map.dom().contains(live[i].key));
    }
    lemma_merged_file_is_sealed(next_id, live, records, carried);
    assert(records_of(merged@) =~= joined(records) + joined(carried));
    lemma_joined_both(records, carried);
    assert forall|i: int| 0 <= i < items.len() implies idx.get((#[trigger] items[i]).0@) == Some(
        items[i].1,
    ) by {
        assert(idx.map.dom().contains(items[i].0@));
    }
    let footer = merged_footer(next_id, live, records);
    let base = swept(l, joined(records + carried), 0);
    let got = with_footer(base, next_id, footer);
    let moved = moved_index(idx, live, entries, n);
    assert(footer.take(n) =~= footer);
    assert(live.take(n) =~= live);
    assert(left.push((next_id, merged)).drop_last() =~= left);
    assert(gathered(left.push((next_id, merged))).index == got);
    lemma_carried_whole(log, ids, images, carried);
    let parts = records + carried;
    assert forall|i: int| 0 <= i < parts.len() implies whole((#[trigger] parts[i])@) by {
        if i < records.len() {
            assert(is_put(records[i]@));
        } else {
            assert(says(carried[i - records.len()]@, idx));
        }
    }
    lemma_swept_parts(l, parts);
    lemma_swept_parts_both(l, records, carried);
    lemma_puts_say_nothing(l, records);
    assert forall|k: Seq<u8>| agree(got, moved, k) by {
        lemma_merged_footer_gives(base, idx, next_id, live, records, entries, n, k);
        lemma_has_live(items, idx, ids, k);
        if !has_live(live, k) {
            if idx.map.dom().contains(k) {
                assert(has_key(items, k));
            }
            lemma_rest_settles(log, ids, files, keep, images, carried, k);
        }
    }
    assert forall|k: Seq<u8>| #[trigger] lookup(got.map, k) == lookup(moved.map, k) by {
        assert(agree(got, moved, k));
    }
    assert forall|k: Seq<u8>| #[trigger] lookup(got.ttl, k) == lookup(moved.ttl, k) by {
        assert(agree(got, moved, k));
    }
    assert forall|k: Seq<u8>| #[trigger] lookup(got.valsep, k) == lookup(moved.valsep, k) by {
        assert(agree(got, moved, k));
    }
    lemma_same_lookups(got.map, moved.map);
    lemma_same_lookups(got.ttl, moved.ttl);
    lemma_same_lookups(got.valsep, moved.valsep);
}

proof fn lemma_carried_whole(
    log: NamespaceLog,
    ids: Seq<u32>,
    images: Seq<Vec<u8>>,
    carried: Seq<Vec<u8>>,
)
    requires
        byte_views(carried) == carried_over(log@, ids, images),
    ensures
        forall|i: int| 0 <= i < carried.len() ==> says((#[trigger] carried[i])@, log@.index),
{
    let idx = log@.index;
    let marks = all_marks(images);
    assert(byte_views(carried).len() == carried.len());
    if without_ids(log@.sealed, ids).len() > 0 {
        let pick = chosen(idx, ids, marks);
        lemma_all_marks_sound(images);
        lemma_chosen(idx, ids, marks, seq![]);
        assert forall|i: int| 0 <= i < carried.len() implies says((#[trigger] carried[i])@, idx) by {
            assert(byte_views(carried)[i] == carried_records(idx, pick)[i]);
            assert(sound(pick[i]) && pick[i].needed(idx, ids));
            lemma_carried_says(pick[i], idx, ids);
        }
    }
}

} // verus!
