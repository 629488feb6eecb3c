//! The index of a namespace: where the record of each key stands.
use vstd::prelude::*;

use crate::bytes::{
    before, lemma_before_irreflexive, lemma_before_total, lemma_before_transitive, Rank,
};
use crate::bytes;
use crate::fx::FxMap;

verus! {

/// Where the full record of a key stands on disk.
///
/// Layout: u64 + u64 + u32 + u32 = 24 bytes.
///
/// `tstamp_ms` doubles as the per-key revision for CAS checks. It is the
/// monotonically-increasing timestamp written into the record header — O(1)
/// to compare without a disk read.
#[derive(Debug, Clone, Copy, PartialEq, Eq, Structural)]
pub struct IndexEntry {
    pub record_offset: u64,
    pub record_size: u32,
    pub file_id: u32,
    pub tstamp_ms: u64,
}

impl IndexEntry {
    pub fn new(file_id: u32, record_offset: u64, record_size: u32, tstamp_ms: u64) -> (r: Self)
        ensures
            r == (IndexEntry { record_offset, record_size, file_id, tstamp_ms }),
    {
        IndexEntry { record_offset, record_size, file_id, tstamp_ms }
    }
}

/// What an index holds.
#[verifier::ext_equal]
pub struct IndexView {
    /// Where the record of each key stands.
    pub map: Map<Seq<u8>, IndexEntry>,
    /// When each key expires that has an expiry.
    pub ttl: Map<Seq<u8>, u64>,
    /// The content hash of each value that is kept as a blob.
    pub valsep: Map<Seq<u8>, [u8; 16]>,
}

/// What `m` holds under `k`.
pub open spec fn lookup<V>(m: Map<Seq<u8>, V>, k: Seq<u8>) -> Option<V> {
    if m.dom().contains(k) {
        Some(m[k])
    } else {
        None
    }
}

/// `m` with `v` under `k`, or with nothing under `k`.
pub open spec fn put_opt<V>(m: Map<Seq<u8>, V>, k: Seq<u8>, v: Option<V>) -> Map<Seq<u8>, V> {
    match v {
        Some(v) => m.insert(k, v),
        None => m.remove(k),
    }
}

impl IndexView {
    pub open spec fn empty() -> IndexView {
        IndexView { map: Map::empty(), ttl: Map::empty(), valsep: Map::empty() }
    }

    pub open spec fn get(self, k: Seq<u8>) -> Option<IndexEntry> {
        lookup(self.map, k)
    }

    pub open spec fn ttl_of(self, k: Seq<u8>) -> Option<u64> {
        lookup(self.ttl, k)
    }

    pub open spec fn valsep_of(self, k: Seq<u8>) -> Option<[u8; 16]> {
        lookup(self.valsep, k)
    }

    /// The key's expiry has come.
    pub open spec fn expired(self, k: Seq<u8>, now_ms: u64) -> bool {
        self.ttl.dom().contains(k) && self.ttl[k] <= now_ms
    }

    /// The key is there and its expiry has not come.
    pub open spec fn live(self, k: Seq<u8>, now_ms: u64) -> bool {
        self.map.dom().contains(k) && !self.expired(k, now_ms)
    }

    pub open spec fn insert(
        self,
        k: Seq<u8>,
        entry: IndexEntry,
        expires_at_ms: Option<u64>,
    ) -> IndexView {
        IndexView {
            map: self.map.insert(k, entry),
            ttl: put_opt(self.ttl, k, expires_at_ms),
            valsep: self.valsep,
        }
    }

    pub open spec fn set_ttl(self, k: Seq<u8>, expires_at_ms: Option<u64>) -> IndexView {
        IndexView { ttl: put_opt(self.ttl, k, expires_at_ms), ..self }
    }

    pub open spec fn set_valsep(self, k: Seq<u8>, hash: Option<[u8; 16]>) -> IndexView {
        IndexView { valsep: put_opt(self.valsep, k, hash), ..self }
    }

    pub open spec fn remove(self, k: Seq<u8>) -> IndexView {
        IndexView {
            map: self.map.remove(k),
            ttl: self.ttl.remove(k),
            valsep: self.valsep.remove(k),
        }
    }
}

/// A key that a scan from `cursor` on is to yield.
pub open spec fn candidate(
    idx: IndexView,
    cursor: Option<Seq<u8>>,
    now_ms: u64,
    accept: spec_fn(Seq<u8>) -> bool,
    k: Seq<u8>,
) -> bool {
    &&& idx.live(k, now_ms)
    &&& (cursor matches Some(c) ==> before(c, k))
    &&& accept(k)
}

/// `k` does not come after `bound`.
pub open spec fn upto(bound: Option<Seq<u8>>, k: Seq<u8>) -> bool {
    match bound {
        Some(b) => k == b || before(k, b),
        None => true,
    }
}

/// The keys ascend.
pub open spec fn ascending(keys: Seq<Seq<u8>>) -> bool {
    forall|i: int, j: int| 0 <= i < j < keys.len() ==> before(#[trigger] keys[i], #[trigger] keys[j])
}

/// `keys` is the page of a scan that is to yield `count` keys, and `next` is the cursor for the
/// page behind it: the first candidates in ascending order, `count` of them unless there are
/// fewer; `next` is the last key of a full page, and nothing where the scan is complete.
pub open spec fn is_page(
    idx: IndexView,
    cursor: Option<Seq<u8>>,
    count: nat,
    now_ms: u64,
    accept: spec_fn(Seq<u8>) -> bool,
    keys: Seq<Seq<u8>>,
    next: Option<Seq<u8>>,
) -> bool {
    &&& ascending(keys)
    &&& forall|i: int|
        0 <= i < keys.len() ==> candidate(idx, cursor, now_ms, accept, #[trigger] keys[i])
    &&& keys.len() <= count
    &&& next == (if keys.len() >= count && count > 0 {
        Some(keys.last())
    } else {
        None
    })
    &&& forall|k: Seq<u8>| #[trigger]
        candidate(idx, cursor, now_ms, accept, k) && upto(next, k) ==> keys.contains(k)
}

/// Two pages of a scan, one behind the other, are one larger page: nothing is left out between
/// them and nothing comes twice.
pub proof fn lemma_pages_join(
    idx: IndexView,
    cursor: Option<Seq<u8>>,
    count: nat,
    more: nat,
    now_ms: u64,
    accept: spec_fn(Seq<u8>) -> bool,
    keys: Seq<Seq<u8>>,
    next: Seq<u8>,
    more_keys: Seq<Seq<u8>>,
    more_next: Option<Seq<u8>>,
)
    requires
        more > 0,
        is_page(idx, cursor, count, now_ms, accept, keys, Some(next)),
        is_page(idx, Some(next), more, now_ms, accept, more_keys, more_next),
    ensures
        is_page(idx, cursor, count + more, now_ms, accept, keys + more_keys, more_next),
{
    let all = keys + more_keys;
    assert forall|i: int| 0 <= i < all.len() implies candidate(
        idx,
        cursor,
        now_ms,
        accept,
        #[trigger] all[i],
    ) by {
        if i < keys.len() {
            assert(all[i] == keys[i]);
        } else {
            let k = more_keys[i - keys.len()];
            assert(all[i] == k);
            assert(candidate(idx, Some(next), now_ms, accept, k));
            if let Some(c) = cursor {
                assert(candidate(idx, cursor, now_ms, accept, keys.last()));
                lemma_before_transitive(c, next, k);
            }
        }
    }
    assert forall|i: int, j: int| 0 <= i < j < all.len() implies before(
        #[trigger] all[i],
        #[trigger] all[j],
    ) by {
        if j < keys.len() {
            assert(before(keys[i], keys[j]));
        } else if i >= keys.len() {
            assert(before(more_keys[i - keys.len()], more_keys[j - keys.len()]));
        } else {
            let k = more_keys[j - keys.len()];
            assert(candidate(idx, Some(next), now_ms, accept, k));
            if i < keys.len() - 1 {
                assert(before(keys[i], keys.last()));
                lemma_before_transitive(keys[i], next, k);
            }
        }
    }
    assert forall|k: Seq<u8>| #[trigger]
        candidate(idx, cursor, now_ms, accept, k) && upto(more_next, k) implies all.contains(
        k,
    ) by {
        lemma_before_total(k, next);
        if upto(Some(next), k) {
            assert(keys.contains(k));
            let i = choose|i: int| 0 <= i < keys.len() && keys[i] == k;
            assert(all[i] == k);
        } else {
            assert(candidate(idx, Some(next), now_ms, accept, k));
            assert(more_keys.contains(k));
            let i = choose|i: int| 0 <= i < more_keys.len() && more_keys[i] == k;
            assert(all[keys.len() + i] == k);
        }
    }
    if more_keys.len() >= more {
        assert(all.last() == more_keys.last());
    }
}

/// One page of a scan, and the cursor for the page behind it.
#[verifier::ext_equal]
pub struct PageView {
    pub keys: Seq<Seq<u8>>,
    pub next: Option<Seq<u8>>,
}

/// A walk through the index: the first page comes from no cursor, each page behind it from the
/// cursor that the page before it gave.
pub open spec fn is_walk(
    idx: IndexView,
    count: nat,
    now_ms: u64,
    accept: spec_fn(Seq<u8>) -> bool,
    pages: Seq<PageView>,
) -> bool
    decreases pages.len(),
{
    pages.len() > 0 ==> {
        let head = pages.drop_last();
        let page = pages.last();
        &&& is_walk(idx, count, now_ms, accept, head)
        &&& head.len() > 0 ==> head.last().next is Some
        &&& is_page(
            idx,
            if head.len() > 0 {
                head.last().next
            } else {
                None
            },
            count,
            now_ms,
            accept,
            page.keys,
            page.next,
        )
    }
}

/// The keys of the pages, one page behind the other.
pub open spec fn walked(pages: Seq<PageView>) -> Seq<Seq<u8>>
    decreases pages.len(),
{
    if pages.len() == 0 {
        seq![]
    } else {
        walked(pages.drop_last()) + pages.last().keys
    }
}

proof fn lemma_walk_is_page(
    idx: IndexView,
    count: nat,
    now_ms: u64,
    accept: spec_fn(Seq<u8>) -> bool,
    pages: Seq<PageView>,
)
    requires
        count > 0,
        pages.len() > 0,
        is_walk(idx, count, now_ms, accept, pages),
    ensures
        is_page(
            idx,
            None,
            count * pages.len(),
            now_ms,
            accept,
            walked(pages),
            pages.last().next,
        ),
        walked(pages).len() >= pages.len() - 1,
    decreases pages.len(),
{
    let head = pages.drop_last();
    let page = pages.last();
    if head.len() > 0 {
        lemma_walk_is_page(idx, count, now_ms, accept, head);
        lemma_pages_join(
            idx,
            None,
            count * head.len(),
            count,
            now_ms,
            accept,
            walked(head),
            head.last().next.unwrap(),
            page.keys,
            page.next,
        );
        assert(count * pages.len() == count * head.len() + count) by (nonlinear_arith)
            requires
                pages.len() == head.len() + 1,
        ;
        assert(count * head.len() >= head.len()) by (nonlinear_arith)
            requires
                count >= 1,
        ;
    } else {
        assert(walked(head) =~= seq![]);
        assert(walked(pages) =~= page.keys);
        assert(count * pages.len() == count) by (nonlinear_arith)
            requires
                pages.len() == 1,
        ;
    }
}

/// A scan that follows its cursor from the start of an index that does not change ends, and its
/// pages, one behind the other, hold every key that is live and passes the filter exactly once, in
/// ascending order, and nothing else: there are at most as many pages as keys, and one more; once
/// no cursor is given, no such key is left out.
pub proof fn lemma_scan_walks_all(
    index: NsIndex,
    count: nat,
    now_ms: u64,
    accept: spec_fn(Seq<u8>) -> bool,
    pages: Seq<PageView>,
)
    requires
        index.wf(),
        count > 0,
        pages.len() > 0,
        is_walk(index@, count, now_ms, accept, pages),
    ensures
        pages.len() <= index@.map.dom().len() + 1,
        ascending(walked(pages)),
        walked(pages).no_duplicates(),
        forall|i: int|
            0 <= i < walked(pages).len() ==> index@.live(#[trigger] walked(pages)[i], now_ms)
                && accept(walked(pages)[i]),
        pages.last().next is None ==> forall|k: Seq<u8>| #[trigger]
            index@.live(k, now_ms) && accept(k) ==> walked(pages).contains(k),
{
    let idx = index@;
    let all = walked(pages);
    lemma_walk_is_page(idx, count, now_ms, accept, pages);
    assert forall|i: int, j: int| 0 <= i < all.len() && 0 <= j < all.len() && i != j implies all[i]
        != all[j] by {
        lemma_before_irreflexive(all[i]);
        if i < j {
            assert(before(all[i], all[j]));
        } else {
            assert(before(all[j], all[i]));
        }
    }
    assert forall|i: int| 0 <= i < all.len() implies idx.live(#[trigger] all[i], now_ms) && accept(
        all[i],
    ) by {
        assert(candidate(idx, None, now_ms, accept, all[i]));
    }
    index.lemma_items();
    all.unique_seq_to_set();
    assert(all.to_set().subset_of(idx.map.dom())) by {
        assert forall|k: Seq<u8>| all.to_set().contains(k) implies idx.map.dom().contains(k) by {
            assert(all.contains(k));
        }
    }
    vstd::set_lib::lemma_len_subset(all.to_set(), idx.map.dom());
    if pages.last().next is None {
        assert forall|k: Seq<u8>| #[trigger] idx.live(k, now_ms) && accept(k) implies all.contains(
            k,
        ) by {
            assert(candidate(idx, None, now_ms, accept, k));
        }
    }
}

/// The keys of index items ascend.
pub open spec fn sorted(items: Seq<(Vec<u8>, IndexEntry)>) -> bool {
    forall|i: int, j: int|
        0 <= i < j < items.len() ==> before((#[trigger] items[i]).0@, (#[trigger] items[j]).0@)
}

/// One of the items has this key.
pub open spec fn has_key(items: Seq<(Vec<u8>, IndexEntry)>, k: Seq<u8>) -> bool {
    exists|i: int| 0 <= i < items.len() && (#[trigger] items[i]).0@ == k
}

/// Where the item with this key stands.
spec fn place(items: Seq<(Vec<u8>, IndexEntry)>, k: Seq<u8>) -> int {
    choose|i: int| 0 <= i < items.len() && (#[trigger] items[i]).0@ == k
}

proof fn lemma_place(items: Seq<(Vec<u8>, IndexEntry)>, i: int)
    requires
        sorted(items),
        0 <= i < items.len(),
    ensures
        has_key(items, items[i].0@),
        place(items, items[i].0@) == i,
{
    let p = place(items, items[i].0@);
    assert(0 <= p < items.len() && items[p].0@ == items[i].0@);
    lemma_before_irreflexive(items[i].0@);
}

/// Per-namespace in-memory index.
pub struct NsIndex {
    /// Ascending by key.
    items: Vec<(Vec<u8>, IndexEntry)>,
    /// TTL sidecar — only TTL'd keys pay extra memory.
    ttl: FxMap<u64>,
    /// Value-separation sidecar — only keys whose value is a blob.
    valsep: FxMap<[u8; 16]>,
    /// Live key count: incremented on insert, decremented on remove.
    /// Lazy-expired keys are included until tombstoned, matching Redis DBSIZE semantics.
    live_count: usize,
}

impl Default for NsIndex {
    fn default() -> (r: Self)
        ensures
            r.wf(),
            r@ == IndexView::empty(),
    {
        NsIndex::new()
    }
}

impl NsIndex {
    /// The items, ascending by key.
    pub closed spec fn items(&self) -> Seq<(Vec<u8>, IndexEntry)> {
        self.items@
    }

    pub closed spec fn wf(&self) -> bool {
        &&& sorted(self.items@)
        &&& self.ttl.wf()
        &&& self.valsep.wf()
        &&& self.live_count == self.items@.len()
    }

    pub closed spec fn view(&self) -> IndexView {
        IndexView {
            map: Map::new(
                |k: Seq<u8>| has_key(self.items@, k),
                |k: Seq<u8>| self.items@[place(self.items@, k)].1,
            ),
            ttl: self.ttl@,
            valsep: self.valsep@,
        }
    }

    /// How the items and the index hang together: the items are the pairs of the index, ascending
    /// by key.
    pub proof fn lemma_items(&self)
        requires
            self.wf(),
        ensures
            sorted(self.items()),
            forall|i: int|
                0 <= i < self.items().len() ==> self@.map.dom().contains(
                    (#[trigger] self.items()[i]).0@,
                ) && self@.map[self.items()[i].0@] == self.items()[i].1,
            forall|k: Seq<u8>| #[trigger]
                self@.map.dom().contains(k) ==> has_key(self.items(), k),
            self@.map.dom().finite(),
            self@.map.dom().len() == self.items().len(),
    {
        assert forall|i: int| 0 <= i < self.items().len() implies self@.map.dom().contains(
            (#[trigger] self.items()[i]).0@,
        ) && self@.map[self.items()[i].0@] == self.items()[i].1 by {
            lemma_place(self.items@, i);
        }
        let keys = self.items@.map_values(|p: (Vec<u8>, IndexEntry)| p.0@);
        assert(keys.no_duplicates()) by {
            assert forall|i: int, j: int|
                0 <= i < keys.len() && 0 <= j < keys.len() && i != j implies keys[i] != keys[j] by {
                lemma_place(self.items@, i);
                lemma_place(self.items@, j);
            }
        }
        assert(keys.to_set() =~= self@.map.dom()) by {
            assert forall|k: Seq<u8>| self@.map.dom().contains(k) implies keys.to_set().contains(
                k,
            ) by {
                assert(has_key(self.items@, k));
                let i = choose|i: int|
                    0 <= i < self.items@.len() && (#[trigger] self.items@[i]).0@ == k;
                assert(keys[i] == k);
            }
            assert forall|k: Seq<u8>| keys.to_set().contains(k) implies self@.map.dom().contains(
                k,
            ) by {
                let i = choose|i: int| 0 <= i < keys.len() && keys[i] == k;
                assert(self.items@[i].0@ == k);
            }
        }
        keys.unique_seq_to_set();
    }

    pub fn new() -> (r: Self)
        ensures
            r.wf(),
            r@ == IndexView::empty(),
    {
        let r = NsIndex {
            items: Vec::new(),
            ttl: FxMap::new(),
            valsep: FxMap::new(),
            live_count: 0,
        };
        assert(r@ =~= IndexView::empty());
        r
    }

    pub fn len(&self) -> (n: usize)
        requires
            self.wf(),
        ensures
            n == self@.map.dom().len(),
            n == self.items().len(),
    {
        proof {
            self.lemma_items();
        }
        self.items.len()
    }

    pub fn is_empty(&self) -> (r: bool)
        requires
            self.wf(),
        ensures
            r == (self@.map.dom().len() == 0),
    {
        self.len() == 0
    }

    pub fn live_len(&self) -> (n: usize)
        requires
            self.wf(),
        ensures
            n == self@.map.dom().len(),
    {
        proof {
            self.lemma_items();
        }
        self.live_count
    }

    /// How many keys have an expiry.
    pub fn ttl_len(&self) -> (n: usize)
        requires
            self.wf(),
        ensures
            n == self@.ttl.dom().len(),
    {
        self.ttl.len()
    }

    /// Finds `key` among the items: whether it is there, and its place or the place where it
    /// would go.
    fn search(&self, key: &[u8]) -> (r: (bool, usize))
        requires
            self.wf(),
        ensures
            r.1 <= self.items@.len(),
            forall|i: int| 0 <= i < r.1 ==> before((#[trigger] self.items@[i]).0@, key@),
            r.0 ==> r.1 < self.items@.len() && self.items@[r.1 as int].0@ == key@ && place(
                self.items@,
                key@,
            ) == r.1,
            !r.0 ==> forall|i: int|
                r.1 <= i < self.items@.len() ==> before(key@, (#[trigger] self.items@[i]).0@),
            r.0 == self@.map.dom().contains(key@),
    {
        let mut lo: usize = 0;
        let mut hi: usize = self.items.len();
        while lo < hi
            invariant
                self.wf(),
                lo <= hi <= self.items@.len(),
                forall|i: int| 0 <= i < lo ==> before((#[trigger] self.items@[i]).0@, key@),
                forall|i: int|
                    hi <= i < self.items@.len() ==> before(key@, (#[trigger] self.items@[i]).0@),
            decreases hi - lo,
        {
            let mid: usize = lo + (hi - lo) / 2;
            match bytes::rank(self.items[mid].0.as_slice(), key) {
                Rank::Before => {
                    proof {
                        assert forall|i: int| 0 <= i < mid + 1 implies before(
                            (#[trigger] self.items@[i]).0@,
                            key@,
                        ) by {
                            if i < mid {
                                lemma_before_transitive(
                                    self.items@[i].0@,
                                    self.items@[mid as int].0@,
                                    key@,
                                );
                            }
                        }
                    }
                    lo = mid + 1;
                },
                Rank::After => {
                    proof {
                        assert forall|i: int| mid <= i < self.items@.len() implies before(
                            key@,
                            (#[trigger] self.items@[i]).0@,
                        ) by {
                            if i > mid {
                                lemma_before_transitive(
                                    key@,
                                    self.items@[mid as int].0@,
                                    self.items@[i].0@,
                                );
                            }
                        }
                    }
                    hi = mid;
                },
                Rank::Same => {
                    proof {
                        lemma_place(self.items@, mid as int);
                    }
                    return (true, mid);
                },
            }
        }
        proof {
            lemma_before_irreflexive(key@);
        }
        (false, lo)
    }

    pub fn get(&self, key: &[u8]) -> (r: Option<&IndexEntry>)
        requires
            self.wf(),
        ensures
            match r {
                Some(e) => self@.get(key@) == Some(*e),
                None => self@.get(key@) is None,
            },
    {
        let (found, i) = self.search(key);
        if found {
            Some(&self.items[i].1)
        } else {
            None
        }
    }

    pub fn ttl(&self, key: &[u8]) -> (r: Option<u64>)
        requires
            self.wf(),
        ensures
            r == self@.ttl_of(key@),
    {
        match self.ttl.get(key) {
            Some(ms) => Some(*ms),
            None => None,
        }
    }

    /// The content hash of the key's value, if it is a blob.
    pub fn valsep(&self, key: &[u8]) -> (r: Option<[u8; 16]>)
        requires
            self.wf(),
        ensures
            r == self@.valsep_of(key@),
    {
        match self.valsep.get(key) {
            Some(h) => Some(*h),
            None => None,
        }
    }

    pub fn insert(&mut self, key: Vec<u8>, entry: IndexEntry, expires_at_ms: Option<u64>)
        requires
            old(self).wf(),
        ensures
            final(self).wf(),
            final(self)@ == old(self)@.insert(key@, entry, expires_at_ms),
    {
        let (found, at) = self.search(key.as_slice());
        let ghost k = key@;
        let ghost was = self.items@;
        self.set_ttl(key.as_slice(), expires_at_ms);
        if found {
            let copy = bytes::to_owned(self.items[at].0.as_slice());
            self.items[at] = (copy, entry);
            assert(self.items@ =~= was.update(at as int, (copy, entry)));
            assert(sorted(self.items@));
        } else {
            self.items.insert(at, (key, entry));
            self.live_count = self.items.len();
            assert(self.items@ =~= was.insert(at as int, (key, entry)));
            assert(sorted(self.items@)) by {
                assert forall|i: int, j: int| 0 <= i < j < self.items@.len() implies before(
                    (#[trigger] self.items@[i]).0@,
                    (#[trigger] self.items@[j]).0@,
                ) by {
                    let oi = if i <= at {
                        i
                    } else {
                        i - 1
                    };
                    let oj = if j <= at {
                        j
                    } else {
                        j - 1
                    };
                    if i != at {
                        assert(self.items@[i] == was[oi]);
                    }
                    if j != at {
                        assert(self.items@[j] == was[oj]);
                    }
                }
            }
        }
        proof {
            lemma_place(self.items@, at as int);
            let m = self@.map;
            let want = old(self)@.map.insert(k, entry);
            assert forall|q: Seq<u8>| #[trigger] m.dom().contains(q) implies want.dom().contains(q)
                && m[q] == want[q] by {
                let i = place(self.items@, q);
                assert(self.items@[i].0@ == q);
                if i != at {
                    let o = if found || i < at {
                        i
                    } else {
                        i - 1
                    };
                    assert(was[o] == self.items@[i]);
                    lemma_place(was, o);
                    lemma_before_irreflexive(q);
                } else {
                    assert(q == k);
                }
            }
            assert forall|q: Seq<u8>| #[trigger] want.dom().contains(q) implies m.dom().contains(
                q,
            ) by {
                if q == k {
                    assert(self.items@[at as int].0@ == k);
                } else {
                    let o = place(was, q);
                    assert(was[o].0@ == q);
                    let i = if found || o < at {
                        o
                    } else {
                        o + 1
                    };
                    assert(self.items@[i].0@ == q);
                    assert(has_key(self.items@, q));
                }
            }
            assert(m =~= want);
        }
    }

    pub fn set_ttl(&mut self, key: &[u8], expires_at_ms: Option<u64>)
        requires
            old(self).wf(),
        ensures
            final(self).wf(),
            final(self)@ == old(self)@.set_ttl(key@, expires_at_ms),
            final(self).items() == old(self).items(),
    {
        match expires_at_ms {
            Some(ms) => {
                self.ttl.insert(bytes::to_owned(key), ms);
            },
            None => {
                self.ttl.remove(key);
            },
        }
        assert(self@ =~= old(self)@.set_ttl(key@, expires_at_ms));
    }

    /// Sets or clears the content hash of the key's value.
    pub fn set_valsep(&mut self, key: &[u8], hash: Option<[u8; 16]>)
        requires
            old(self).wf(),
        ensures
            final(self).wf(),
            final(self)@ == old(self)@.set_valsep(key@, hash),
            final(self).items() == old(self).items(),
    {
        match hash {
            Some(h) => {
                self.valsep.insert(bytes::to_owned(key), h);
            },
            None => {
                self.valsep.remove(key);
            },
        }
        assert(self@ =~= old(self)@.set_valsep(key@, hash));
    }

    pub fn remove(&mut self, key: &[u8]) -> (r: Option<IndexEntry>)
        requires
            old(self).wf(),
        ensures
            final(self).wf(),
            final(self)@ == old(self)@.remove(key@),
            r == old(self)@.get(key@),
    {
        let (found, at) = self.search(key);
        let ghost was = self.items@;
        self.ttl.remove(key);
        self.valsep.remove(key);
        if !found {
            assert(self@.map =~= old(self)@.map.remove(key@));
            assert(self@ =~= old(self)@.remove(key@));
            return None;
        }
        let gone = self.items.remove(at);
        self.live_count = self.items.len();
        proof {
            assert(self.items@ =~= was.remove(at as int));
            assert(sorted(self.items@)) by {
                assert forall|i: int, j: int| 0 <= i < j < self.items@.len() implies before(
                    (#[trigger] self.items@[i]).0@,
                    (#[trigger] self.items@[j]).0@,
                ) by {
                    let oi = if i < at {
                        i
                    } else {
                        i + 1
                    };
                    let oj = if j < at {
                        j
                    } else {
                        j + 1
                    };
                    assert(self.items@[i] == was[oi]);
                    assert(self.items@[j] == was[oj]);
                }
            }
            let m = self@.map;
            let want = old(self)@.map.remove(key@);
            assert forall|q: Seq<u8>| #[trigger] m.dom().contains(q) implies want.dom().contains(q)
                && m[q] == want[q] by {
                let i = place(self.items@, q);
                assert(self.items@[i].0@ == q);
                let o = if i < at {
                    i
                } else {
                    i + 1
                };
                assert(was[o] == self.items@[i]);
                lemma_place(was, o);
                lemma_place(was, at as int);
                lemma_place(self.items@, i);
            }
            assert forall|q: Seq<u8>| #[trigger] want.dom().contains(q) implies m.dom().contains(
                q,
            ) by {
                let o = place(was, q);
                assert(was[o].0@ == q);
                let i = if o < at {
                    o
                } else {
                    o - 1
                };
                assert(self.items@[i].0@ == q);
                assert(has_key(self.items@, q));
            }
            assert(m =~= want);
            assert(self@ =~= old(self)@.remove(key@));
        }
        Some(gone.1)
    }

    pub fn clear(&mut self)
        ensures
            final(self).wf(),
            final(self)@ == IndexView::empty(),
    {
        self.items.clear();
        self.ttl.clear();
        self.valsep.clear();
        self.live_count = 0;
        assert(self@ =~= IndexView::empty());
    }

    /// Returns true if `expires_at_ms` is set and is at or before `now_ms`.
    pub fn is_expired(&self, key: &[u8], now_ms: u64) -> (r: bool)
        requires
            self.wf(),
        ensures
            r == self@.expired(key@, now_ms),
    {
        match self.ttl.get(key) {
            Some(ms) => *ms <= now_ms,
            None => false,
        }
    }

    /// The items, ascending by key.
    pub fn iter(&self) -> (r: &Vec<(Vec<u8>, IndexEntry)>)
        ensures
            r@ == self.items(),
    {
        &self.items
    }

    /// How many keys come before `key` or are `key` itself.
    pub fn rank_through(&self, key: &[u8]) -> (r: usize)
        requires
            self.wf(),
        ensures
            r <= self.items().len(),
            forall|i: int|
                0 <= i < r ==> (#[trigger] self.items()[i]).0@ == key@ || before(
                    self.items()[i].0@,
                    key@,
                ),
            forall|i: int|
                r <= i < self.items().len() ==> before(key@, (#[trigger] self.items()[i]).0@),
    {
        let (found, at) = self.search(key);
        if found {
            at + 1
        } else {
            at
        }
    }

    /// The keys whose value is a blob, each with the content hash.
    pub fn valsep_iter(&self) -> (r: &FxMap<[u8; 16]>)
        requires
            self.wf(),
        ensures
            r.wf(),
            r@ == self@.valsep,
    {
        &self.valsep
    }

    /// Walk keys starting after `cursor` (exclusive lower bound), yielding up to
    /// `count` live keys that pass `filter`. Returns `(yielded, next_cursor)`.
    ///
    /// `cursor = None` starts from the beginning of the keyspace.
    /// `cursor = Some(key)` resumes strictly after `key`.
    /// `next_cursor = None` signals scan complete; `Some(key)` is the exclusive
    /// lower bound for the next page call.
    ///
    /// Because the cursor is a key rather than a position index, it is stable
    /// across concurrent inserts and deletes: keys present for the full duration
    /// of a scan appear exactly once. Keys inserted after the cursor position may
    /// appear; keys deleted before their position is reached will not.
    pub fn scan<F: Fn(&[u8]) -> bool>(
        &self,
        cursor: Option<&[u8]>,
        count: usize,
        now_ms: u64,
        filter: F,
    ) -> (r: (Vec<Vec<u8>>, Option<Vec<u8>>))
        requires
            self.wf(),
            forall|k: &[u8]| filter.requires((k,)),
        ensures
            forall|accept: spec_fn(Seq<u8>) -> bool|
                (forall|k: &[u8], b: bool| #[trigger]
                    filter.ensures((k,), b) ==> b == accept(k@)) ==> #[trigger] is_page(
                    self@,
                    cursor_view(cursor),
                    page_size(count),
                    now_ms,
                    accept,
                    key_views(r.0@),
                    key_view(r.1),
                ),
    {
        let ghost want = page_size(count);
        let count: usize = if count == 0 {
            1
        } else {
            count
        };
        let mut i: usize = match cursor {
            None => 0,
            Some(c) => {
                let (found, at) = self.search(c);
                if found {
                    at + 1
                } else {
                    at
                }
            },
        };
        let ghost start = i as int;
        proof {
            lemma_items_behind(self, cursor_view(cursor), start);
        }
        let mut yielded: Vec<Vec<u8>> = Vec::new();
        assert(key_views(yielded@) =~= seq![]);
        while i < self.items.len() && yielded.len() < count
            invariant
                self.wf(),
                count >= 1,
                start <= i <= self.items@.len(),
                0 <= start,
                yielded@.len() <= count,
                items_behind(self, cursor_view(cursor), start),
                forall|k: &[u8]| filter.requires((k,)),
                forall|accept: spec_fn(Seq<u8>) -> bool|
                    (forall|k: &[u8], b: bool| #[trigger]
                        filter.ensures((k,), b) ==> b == accept(k@)) ==> #[trigger] yields_upto(
                        self,
                        cursor_view(cursor),
                        now_ms,
                        accept,
                        start,
                        i as int,
                        key_views(yielded@),
                    ),
            decreases self.items@.len() - i,
        {
            let ghost was = yielded@;
            let ghost at = i as int;
            let ghost mut kept = false;
            let key = self.items[i].0.as_slice();
            if !self.is_expired(key, now_ms) {
                if filter(key) {
                    yielded.push(bytes::to_owned(key));
                    proof {
                        kept = true;
                    }
                }
            }
            i = i + 1;
            proof {
                assert forall|accept: spec_fn(Seq<u8>) -> bool|
                    (forall|k: &[u8], b: bool| #[trigger]
                        filter.ensures((k,), b) ==> b == accept(k@)) implies #[trigger] yields_upto(
                    self,
                    cursor_view(cursor),
                    now_ms,
                    accept,
                    start,
                    i as int,
                    key_views(yielded@),
                ) by {
                    assert(yields_upto(
                        self,
                        cursor_view(cursor),
                        now_ms,
                        accept,
                        start,
                        at,
                        key_views(was),
                    ));
                    if kept {
                        assert(key_views(yielded@) =~= key_views(was).push(
                            self.items@[at].0@,
                        ));
                    }
                    lemma_yields_step(
                        self,
                        cursor_view(cursor),
                        now_ms,
                        accept,
                        start,
                        at,
                        key_views(was),
                        kept,
                    );
                }
            }
        }
        let next = if yielded.len() >= count {
            Some(bytes::to_owned(yielded[yielded.len() - 1].as_slice()))
        } else {
            None
        };
        proof {
            assert forall|accept: spec_fn(Seq<u8>) -> bool|
                (forall|k: &[u8], b: bool| #[trigger]
                    filter.ensures((k,), b) ==> b == accept(k@)) implies #[trigger] is_page(
                self@,
                cursor_view(cursor),
                want,
                now_ms,
                accept,
                key_views(yielded@),
                key_view(next),
            ) by {
                assert(yields_upto(
                    self,
                    cursor_view(cursor),
                    now_ms,
                    accept,
                    start,
                    i as int,
                    key_views(yielded@),
                ));
                lemma_yields_page(
                    self,
                    cursor_view(cursor),
                    want,
                    now_ms,
                    accept,
                    start,
                    i as int,
                    key_views(yielded@),
                    key_view(next),
                );
            }
        }
        (yielded, next)
    }
}

/// The bytes of an optional cursor.
pub open spec fn cursor_view(c: Option<&[u8]>) -> Option<Seq<u8>> {
    match c {
        Some(c) => Some(c@),
        None => None,
    }
}

/// The bytes of an optional key.
pub open spec fn key_view(k: Option<Vec<u8>>) -> Option<Seq<u8>> {
    match k {
        Some(k) => Some(k@),
        None => None,
    }
}

/// The bytes of each of several keys.
pub open spec fn key_views(v: Seq<Vec<u8>>) -> Seq<Seq<u8>> {
    v.map_values(|k: Vec<u8>| k@)
}

/// How many keys a page is to hold where `count` are asked for: at least one, so that a scan
/// always makes progress.
pub open spec fn page_size(count: usize) -> nat {
    if count == 0 {
        1
    } else {
        count as nat
    }
}

/// The items from `start` on are those behind the cursor.
spec fn items_behind(idx: &NsIndex, cursor: Option<Seq<u8>>, start: int) -> bool {
    forall|j: int|
        0 <= j < idx.items@.len() ==> (j >= start <==> (cursor matches Some(c) ==> before(
            c,
            (#[trigger] idx.items@[j]).0@,
        )))
}

proof fn lemma_items_behind(idx: &NsIndex, cursor: Option<Seq<u8>>, start: int)
    requires
        idx.wf(),
        0 <= start <= idx.items@.len(),
        cursor is None ==> start == 0,
        cursor matches Some(c) ==> {
            ||| start > 0 && idx.items@[start - 1].0@ == c
            ||| (forall|j: int| 0 <= j < start ==> before((#[trigger] idx.items@[j]).0@, c)) && (
            forall|j: int| start <= j < idx.items@.len() ==> before(c, (#[trigger] idx.items@[j]).0@))
        },
    ensures
        items_behind(idx, cursor, start),
{
    if let Some(c) = cursor {
        assert forall|j: int| 0 <= j < idx.items@.len() implies (j >= start <==> before(
            c,
            (#[trigger] idx.items@[j]).0@,
        )) by {
            lemma_before_irreflexive(c);
            if j < start {
                if before(c, idx.items@[j].0@) {
                    if start > 0 && idx.items@[start - 1].0@ == c {
                        if j < start - 1 {
                            assert(before(idx.items@[j].0@, idx.items@[start - 1].0@));
                            lemma_before_transitive(c, idx.items@[j].0@, c);
                        }
                    } else {
                        lemma_before_transitive(c, idx.items@[j].0@, c);
                    }
                }
            } else if start > 0 && idx.items@[start - 1].0@ == c {
                assert(before(idx.items@[start - 1].0@, idx.items@[j].0@));
            }
        }
    }
}

/// `keys` are the candidates among the items from `start` up to `i`, in order.
spec fn yields_upto(
    idx: &NsIndex,
    cursor: Option<Seq<u8>>,
    now_ms: u64,
    accept: spec_fn(Seq<u8>) -> bool,
    start: int,
    i: int,
    keys: Seq<Seq<u8>>,
) -> bool {
    &&& ascending(keys)
    &&& forall|n: int|
        0 <= n < keys.len() ==> candidate(idx@, cursor, now_ms, accept, #[trigger] keys[n]) && (
        exists|j: int| start <= j < i && (#[trigger] idx.items@[j]).0@ == keys[n])
    &&& forall|j: int|
        start <= j < i && candidate(
            idx@,
            cursor,
            now_ms,
            accept,
            (#[trigger] idx.items@[j]).0@,
        ) ==> keys.contains(idx.items@[j].0@)
}

proof fn lemma_yields_step(
    idx: &NsIndex,
    cursor: Option<Seq<u8>>,
    now_ms: u64,
    accept: spec_fn(Seq<u8>) -> bool,
    start: int,
    i: int,
    keys: Seq<Seq<u8>>,
    kept: bool,
)
    requires
        idx.wf(),
        0 <= start <= i < idx.items@.len(),
        items_behind(idx, cursor, start),
        yields_upto(idx, cursor, now_ms, accept, start, i, keys),
        kept == (!idx@.expired(idx.items@[i].0@, now_ms) && accept(idx.items@[i].0@)),
    ensures
        yields_upto(
            idx,
            cursor,
            now_ms,
            accept,
            start,
            i + 1,
            if kept {
                keys.push(idx.items@[i].0@)
            } else {
                keys
            },
        ),
{
    let k = idx.items@[i].0@;
    lemma_place(idx.items@, i);
    let out = if kept {
        keys.push(k)
    } else {
        keys
    };
    assert(kept == candidate(idx@, cursor, now_ms, accept, k));
    assert forall|a: int, b: int| 0 <= a < b < out.len() implies before(
        #[trigger] out[a],
        #[trigger] out[b],
    ) by {
        if b == keys.len() {
            assert(out[a] == keys[a]);
            let j = choose|j: int| start <= j < i && (#[trigger] idx.items@[j]).0@ == keys[a];
            assert(before(idx.items@[j].0@, idx.items@[i].0@));
        }
    }
    assert forall|n: int| 0 <= n < out.len() implies candidate(
        idx@,
        cursor,
        now_ms,
        accept,
        #[trigger] out[n],
    ) && (exists|j: int| start <= j < i + 1 && (#[trigger] idx.items@[j]).0@ == out[n]) by {
        if n < keys.len() {
            assert(out[n] == keys[n]);
            let j = choose|j: int| start <= j < i && (#[trigger] idx.items@[j]).0@ == keys[n];
            assert(idx.items@[j].0@ == out[n]);
        } else {
            assert(idx.items@[i].0@ == out[n]);
        }
    }
    assert forall|j: int|
        start <= j < i + 1 && candidate(
            idx@,
            cursor,
            now_ms,
            accept,
            (#[trigger] idx.items@[j]).0@,
        ) implies out.contains(idx.items@[j].0@) by {
        if j < i {
            assert(keys.contains(idx.items@[j].0@));
            let n = choose|n: int| 0 <= n < keys.len() && keys[n] == idx.items@[j].0@;
            assert(out[n] == idx.items@[j].0@);
        } else {
            assert(out[keys.len() as int] == k);
        }
    }
}

proof fn lemma_yields_page(
    idx: &NsIndex,
    cursor: Option<Seq<u8>>,
    count: nat,
    now_ms: u64,
    accept: spec_fn(Seq<u8>) -> bool,
    start: int,
    i: int,
    keys: Seq<Seq<u8>>,
    next: Option<Seq<u8>>,
)
    requires
        idx.wf(),
        count > 0,
        0 <= start <= i <= idx.items@.len(),
        items_behind(idx, cursor, start),
        yields_upto(idx, cursor, now_ms, accept, start, i, keys),
        keys.len() <= count,
        keys.len() < count ==> i == idx.items@.len(),
        next == (if keys.len() >= count {
            Some(keys.last())
        } else {
            None
        }),
    ensures
        is_page(idx@, cursor, count, now_ms, accept, keys, next),
{
    assert forall|k: Seq<u8>| #[trigger]
        candidate(idx@, cursor, now_ms, accept, k) && upto(next, k) implies keys.contains(k) by {
        let p = place(idx.items@, k);
        assert(idx.items@[p].0@ == k);
        assert(p >= start);
        if p >= i {
            assert(next is Some);
            let last = keys.last();
            assert(candidate(idx@, cursor, now_ms, accept, keys[keys.len() - 1]));
            let j = choose|j: int| start <= j < i && (#[trigger] idx.items@[j]).0@ == last;
            assert(before(idx.items@[j].0@, idx.items@[p].0@));
            lemma_before_irreflexive(last);
            if before(k, last) {
                lemma_before_transitive(last, k, last);
            }
        }
    }
}

} // verus!
