//! S3-FIFO in-memory cache.
//!
//! Eviction: Small queue + Main queue + ghost set. New entries enter Small.
//! Entries accessed while in Small are promoted to Main. Entries evicted from
//! Small are tracked in the ghost set; if re-inserted before the ghost entry is
//! displaced they go directly to Main, preventing churn.
use std::collections::VecDeque;

use vstd::prelude::*;

use crate::bytes;
use crate::bytes::has_prefix;
use crate::fx::{
    lemma_total_push, lemma_total_swapped_out, lemma_total_update, total, FxMap,
};

verus! {

/// What is kept of a key.
pub struct CacheEntry {
    value: Vec<u8>,
    expires_at_ms: Option<u64>,
    /// JSON text.
    metadata: Option<Vec<u8>>,
    /// Whether the entry was used since it came, or since it was last passed over: 0 or 1.
    freq: u8,
    size: usize,
    /// How many bytes the metadata counts with.
    meta_size: Ghost<usize>,
    revision: u64,
}

/// What a `CacheEntry` says.
#[verifier::ext_equal]
pub struct EntryView {
    pub value: Seq<u8>,
    pub expires_at_ms: Option<u64>,
    pub metadata: Option<Seq<u8>>,
    pub freq: u8,
    pub size: nat,
    /// How many bytes the metadata counts with.
    pub meta_size: usize,
    pub revision: u64,
}

impl EntryView {
    /// The entry's expiry has come.
    pub open spec fn expired(self, now_ms: u64) -> bool {
        self.expires_at_ms matches Some(ms) && ms <= now_ms
    }
}

/// The bytes of optional metadata.
pub open spec fn meta_view(m: Option<Vec<u8>>) -> Option<Seq<u8>> {
    match m {
        Some(m) => Some(m@),
        None => None,
    }
}

impl CacheEntry {
    pub closed spec fn view(&self) -> EntryView {
        EntryView {
            value: self.value@,
            expires_at_ms: self.expires_at_ms,
            metadata: meta_view(self.metadata),
            freq: self.freq,
            size: self.size as nat,
            meta_size: self.meta_size@,
            revision: self.revision,
        }
    }
}

/// The size of an entry.
pub closed spec fn entry_weight() -> spec_fn(CacheEntry) -> nat {
    |e: CacheEntry| e.size as nat
}

/// The state of a cache.
#[verifier::ext_equal]
pub struct CacheView {
    pub entries: Map<Seq<u8>, EntryView>,
    /// The queues hold keys. A key may have left the cache since: its slot is stale.
    pub small: Seq<Seq<u8>>,
    pub main: Seq<Seq<u8>>,
    pub ghost_set: Set<Seq<u8>>,
    /// The ghosts in the order in which they came; some may have left the set since.
    pub ghost_queue: Seq<Seq<u8>>,
    pub ghost_max: nat,
    pub current_bytes: nat,
    pub max_bytes: nat,
    pub stale_slots: nat,
}

/// The keys whose entry was used.
pub open spec fn hot(entries: Map<Seq<u8>, EntryView>) -> Set<Seq<u8>> {
    entries.dom().filter(|k: Seq<u8>| entries[k].freq > 0)
}

/// The size that an entry counts with.
pub open spec fn entry_size(key: Seq<u8>, value: Seq<u8>, meta_size: usize) -> nat {
    let n = key.len() + value.len() + meta_size as nat;
    if n == 0 {
        1
    } else {
        n
    }
}

/// The ghosts with room for one more: the oldest leave.
pub open spec fn trimmed(set: Set<Seq<u8>>, queue: Seq<Seq<u8>>, max: nat) -> (
    Set<Seq<u8>>,
    Seq<Seq<u8>>,
)
    decreases queue.len(),
{
    if set.len() >= max && queue.len() > 0 {
        trimmed(set.remove(queue[0]), queue.skip(1), max)
    } else {
        (set, queue)
    }
}

impl CacheView {
    /// An empty cache with this limit.
    pub open spec fn fresh(max_bytes: usize) -> CacheView {
        CacheView {
            entries: Map::empty(),
            small: seq![],
            main: seq![],
            ghost_set: Set::empty(),
            ghost_queue: seq![],
            ghost_max: if max_bytes / 640 > 64 {
                (max_bytes / 640) as nat
            } else {
                64
            },
            current_bytes: 0,
            max_bytes: max_bytes as nat,
            stale_slots: 0,
        }
    }

    /// The entry under a key that is there and not expired, and the state behind the read: the
    /// entry is marked as used, an expired one has left.
    pub open spec fn read(self, k: Seq<u8>, now_ms: u64) -> (CacheView, Option<EntryView>) {
        if !self.entries.dom().contains(k) {
            (self, None)
        } else if self.entries[k].expired(now_ms) {
            (self.dropped(k), None)
        } else {
            (
                CacheView {
                    entries: self.entries.insert(k, EntryView { freq: 1, ..self.entries[k] }),
                    ..self
                },
                Some(self.entries[k]),
            )
        }
    }

    /// The bytes used still fit in the machine's integers with these contents under a key.
    pub open spec fn has_room(self, k: Seq<u8>, value: Seq<u8>, meta_size: usize) -> bool {
        let freed: nat = if self.entries.dom().contains(k) {
            self.entries[k].size
        } else {
            0
        };
        self.current_bytes - freed + entry_size(k, value, meta_size) <= usize::MAX
    }

    /// Without the key, whose slot stays behind, stale.
    pub open spec fn removed(self, k: Seq<u8>) -> CacheView {
        if self.entries.dom().contains(k) {
            self.dropped(k).staler(1)
        } else {
            self
        }
    }

    /// With the key's entry not used.
    pub open spec fn cooled(self, k: Seq<u8>) -> CacheView {
        CacheView {
            entries: self.entries.insert(k, EntryView { freq: 0, ..self.entries[k] }),
            ..self
        }
    }

    /// Without the key's entry.
    pub open spec fn dropped(self, k: Seq<u8>) -> CacheView {
        CacheView {
            entries: self.entries.remove(k),
            current_bytes: (self.current_bytes - self.entries[k].size) as nat,
            ..self
        }
    }

    /// With the key among the ghosts.
    pub open spec fn ghosted(self, k: Seq<u8>) -> CacheView {
        let (set, queue) = trimmed(self.ghost_set, self.ghost_queue, self.ghost_max);
        CacheView {
            ghost_set: set.insert(k),
            ghost_queue: if set.contains(k) {
                queue
            } else {
                queue.push(k)
            },
            ..self
        }
    }

    /// Phase 1 of an eviction: the first entry of Small that was not used leaves, and becomes a
    /// ghost; those before it that were used move to Main. Says whether an entry left.
    pub open spec fn evict_small(self) -> (CacheView, bool)
        decreases self.small.len(),
    {
        if self.small.len() == 0 {
            (self, false)
        } else {
            let k = self.small[0];
            let rest = CacheView { small: self.small.skip(1), ..self };
            if !self.entries.dom().contains(k) {
                rest.evict_small()
            } else if self.entries[k].freq > 0 {
                CacheView { main: rest.main.push(k), ..rest.cooled(k) }.evict_small()
            } else {
                (rest.dropped(k).ghosted(k), true)
            }
        }
    }

    /// Phase 2 of an eviction: the first entry of Main that was not used leaves; those before it
    /// that were used get one more chance at the end of the queue.
    pub open spec fn evict_main(self) -> (CacheView, bool)
        decreases hot(self.entries).len(), self.main.len(),
            when self.entries.dom().finite()
            via Self::evict_main_decreases
    {
        if self.main.len() == 0 {
            (self, false)
        } else {
            let k = self.main[0];
            let rest = CacheView { main: self.main.skip(1), ..self };
            if !self.entries.dom().contains(k) {
                rest.evict_main()
            } else if self.entries[k].freq > 0 {
                CacheView { main: rest.main.push(k), ..rest.cooled(k) }.evict_main()
            } else {
                (rest.dropped(k), true)
            }
        }
    }

    #[via_fn]
    proof fn evict_main_decreases(self) {
        if self.main.len() > 0 {
            let k = self.main[0];
            if self.entries.dom().contains(k) && self.entries[k].freq > 0 {
                lemma_cooled_hot(self.entries, k);
                let rest = CacheView { main: self.main.skip(1), ..self };
                assert(rest.cooled(k).entries.dom() =~= self.entries.dom());
            }
        }
    }

    /// One eviction: from Small, or else from Main.
    pub open spec fn evict_one(self) -> (CacheView, bool) {
        let (v, done) = self.evict_small();
        if done {
            (v, true)
        } else {
            v.evict_main()
        }
    }

    /// Evictions until the cache is within its limit, or nothing more can leave.
    pub open spec fn evict_to_limit(self) -> CacheView
        decreases self.entries.dom().len(),
            when self.entries.dom().finite()
            via Self::evict_to_limit_decreases
    {
        if self.current_bytes > self.max_bytes {
            let (v, done) = self.evict_one();
            if done {
                v.evict_to_limit()
            } else {
                v
            }
        } else {
            self
        }
    }

    #[via_fn]
    proof fn evict_to_limit_decreases(self) {
        if self.current_bytes > self.max_bytes {
            lemma_evict_one(self);
        }
    }

    /// With these contents under a key that is there.
    pub open spec fn updated(
        self,
        k: Seq<u8>,
        value: Seq<u8>,
        expires_at_ms: Option<u64>,
        metadata: Option<Seq<u8>>,
        meta_size: usize,
        revision: u64,
    ) -> CacheView {
        let size = entry_size(k, value, meta_size);
        CacheView {
            entries: self.entries.insert(
                k,
                EntryView { value, expires_at_ms, metadata, freq: 1, size, meta_size, revision },
            ),
            current_bytes: (self.current_bytes - self.entries[k].size + size) as nat,
            ..self
        }
    }

    /// With these contents under a key that is not there: it enters Main where it is a ghost, and
    /// Small else.
    pub open spec fn added(
        self,
        k: Seq<u8>,
        value: Seq<u8>,
        expires_at_ms: Option<u64>,
        metadata: Option<Seq<u8>>,
        meta_size: usize,
        revision: u64,
    ) -> CacheView {
        let size = entry_size(k, value, meta_size);
        let v = CacheView {
            entries: self.entries.insert(
                k,
                EntryView { value, expires_at_ms, metadata, freq: 0, size, meta_size, revision },
            ),
            current_bytes: self.current_bytes + size,
            ..self
        };
        if self.ghost_set.contains(k) {
            CacheView { ghost_set: self.ghost_set.remove(k), main: self.main.push(k), ..v }
        } else {
            CacheView { small: self.small.push(k), ..v }
        }
    }

    /// With `n` more stale slots; where they dominate, both queues are rid of them.
    pub open spec fn staler(self, n: nat) -> CacheView {
        let stale = self.stale_slots + n;
        if stale > (self.small.len() + self.main.len()) / 2 {
            CacheView {
                small: live_slots(self.small, self.entries),
                main: live_slots(self.main, self.entries),
                stale_slots: 0,
                ..self
            }
        } else {
            CacheView { stale_slots: stale, ..self }
        }
    }

    /// Without the entries of these keys, which leave stale slots; as it is where there are none.
    pub open spec fn without(self, keys: Set<Seq<u8>>) -> CacheView {
        let entries = self.entries.remove_keys(keys);
        if keys.len() == 0 {
            self
        } else {
            CacheView { entries, current_bytes: sum_sizes(entries), ..self }.staler(keys.len())
        }
    }

    /// Every entry has a slot in a queue.
    pub open spec fn slotted(self) -> bool {
        forall|k: Seq<u8>| #[trigger]
            self.entries.dom().contains(k) ==> self.small.contains(k) || self.main.contains(k)
    }

    /// The size recorded for each entry is that of its key, its value and its metadata.
    pub open spec fn sized(self) -> bool {
        forall|k: Seq<u8>| #[trigger]
            self.entries.dom().contains(k) ==> self.entries[k].size == entry_size(
                k,
                self.entries[k].value,
                self.entries[k].meta_size,
            )
    }

    /// Every ghost is in the ghost queue.
    pub open spec fn queued(self) -> bool {
        forall|k: Seq<u8>| #[trigger] self.ghost_set.contains(k) ==> self.ghost_queue.contains(k)
    }
}

/// The sizes of the entries, added up.
pub open spec fn sum_sizes(entries: Map<Seq<u8>, EntryView>) -> nat
    decreases entries.dom().len(),
        when entries.dom().finite()
        via sum_sizes_decreases
{
    if entries.dom().len() == 0 {
        0
    } else {
        let k = entries.dom().choose();
        entries[k].size + sum_sizes(entries.remove(k))
    }
}

#[via_fn]
proof fn sum_sizes_decreases(entries: Map<Seq<u8>, EntryView>) {
    if entries.dom().len() > 0 {
        let k = entries.dom().choose();
        assert(entries.dom().contains(k));
        assert(entries.remove(k).dom() =~= entries.dom().remove(k));
    }
}

/// What the keys, the values and the metadata of the entries take, added up.
pub open spec fn bytes_of(entries: Map<Seq<u8>, EntryView>) -> nat
    decreases entries.dom().len(),
        when entries.dom().finite()
        via bytes_of_decreases
{
    if entries.dom().len() == 0 {
        0
    } else {
        let k = entries.dom().choose();
        entry_size(k, entries[k].value, entries[k].meta_size) + bytes_of(entries.remove(k))
    }
}

#[via_fn]
proof fn bytes_of_decreases(entries: Map<Seq<u8>, EntryView>) {
    if entries.dom().len() > 0 {
        let k = entries.dom().choose();
        assert(entries.dom().contains(k));
        assert(entries.remove(k).dom() =~= entries.dom().remove(k));
    }
}

proof fn lemma_bytes_of(v: CacheView)
    requires
        v.sized(),
        v.entries.dom().finite(),
    ensures
        bytes_of(v.entries) == sum_sizes(v.entries),
    decreases v.entries.dom().len(),
{
    if v.entries.dom().len() > 0 {
        let k = v.entries.dom().choose();
        assert(v.entries.dom().contains(k));
        assert(v.entries.remove(k).dom() =~= v.entries.dom().remove(k));
        lemma_bytes_of(CacheView { entries: v.entries.remove(k), ..v });
    }
}

/// Any entry may be the one that is added last.
proof fn lemma_sum_sizes(entries: Map<Seq<u8>, EntryView>, k: Seq<u8>)
    requires
        entries.dom().finite(),
        entries.dom().contains(k),
    ensures
        sum_sizes(entries) == entries[k].size + sum_sizes(entries.remove(k)),
    decreases entries.dom().len(),
{
    let c = entries.dom().choose();
    assert(entries.dom().len() > 0);
    assert(entries.dom().contains(c));
    assert(entries.remove(c).dom() =~= entries.dom().remove(c));
    assert(entries.remove(k).dom() =~= entries.dom().remove(k));
    if c != k {
        lemma_sum_sizes(entries.remove(c), k);
        lemma_sum_sizes(entries.remove(k), c);
        assert(entries.remove(c).remove(k) =~= entries.remove(k).remove(c));
    }
}

/// The entries of the first pairs.
spec fn first_entries(items: Seq<(Vec<u8>, CacheEntry)>) -> Map<Seq<u8>, EntryView>
    decreases items.len(),
{
    if items.len() == 0 {
        Map::empty()
    } else {
        first_entries(items.drop_last()).insert(items.last().0@, items.last().1@)
    }
}

proof fn lemma_first_entries(items: Seq<(Vec<u8>, CacheEntry)>)
    requires
        forall|i: int, j: int|
            0 <= i < items.len() && 0 <= j < items.len() && (#[trigger] items[i]).0@ == (
            #[trigger] items[j]).0@ ==> i == j,
    ensures
        first_entries(items).dom().finite(),
        forall|k: Seq<u8>| #[trigger]
            first_entries(items).dom().contains(k) ==> exists|i: int|
                0 <= i < items.len() && (#[trigger] items[i]).0@ == k,
        forall|i: int|
            0 <= i < items.len() ==> first_entries(items).dom().contains(
                (#[trigger] items[i]).0@,
            ) && first_entries(items)[items[i].0@] == items[i].1@,
        sum_sizes(first_entries(items)) == total(items, entry_weight()),
    decreases items.len(),
{
    if items.len() > 0 {
        let head = items.drop_last();
        let last = items[items.len() - 1];
        assert forall|i: int, j: int|
            0 <= i < head.len() && 0 <= j < head.len() && (#[trigger] head[i]).0@ == (
            #[trigger] head[j]).0@ implies i == j by {
            assert(items[i] == head[i] && items[j] == head[j]);
        }
        lemma_first_entries(head);
        let m = first_entries(head);
        let n = first_entries(items);
        assert(!m.dom().contains(last.0@)) by {
            if m.dom().contains(last.0@) {
                let i = choose|i: int| 0 <= i < head.len() && (#[trigger] head[i]).0@ == last.0@;
                assert(items[i].0@ == items[items.len() - 1].0@);
            }
        }
        assert forall|k: Seq<u8>| #[trigger] n.dom().contains(k) implies exists|i: int|
            0 <= i < items.len() && (#[trigger] items[i]).0@ == k by {
            if m.dom().contains(k) {
                let i = choose|i: int| 0 <= i < head.len() && (#[trigger] head[i]).0@ == k;
                assert(items[i].0@ == k);
            } else {
                assert(items[items.len() - 1].0@ == k);
            }
        }
        assert forall|i: int| 0 <= i < items.len() implies n.dom().contains(
            (#[trigger] items[i]).0@,
        ) && n[items[i].0@] == items[i].1@ by {
            if i < head.len() {
                assert(head[i] == items[i]);
            }
        }
        lemma_sum_sizes(n, last.0@);
        assert(n.remove(last.0@) =~= m);
    } else {
        assert(first_entries(items).dom() =~= Set::empty());
    }
}

/// The slots of a queue whose key is in the cache, in order.
pub open spec fn live_slots(q: Seq<Seq<u8>>, entries: Map<Seq<u8>, EntryView>) -> Seq<Seq<u8>>
    decreases q.len(),
{
    if q.len() == 0 {
        seq![]
    } else {
        let head = live_slots(q.drop_last(), entries);
        if entries.dom().contains(q.last()) {
            head.push(q.last())
        } else {
            head
        }
    }
}

proof fn lemma_cooled_hot(entries: Map<Seq<u8>, EntryView>, k: Seq<u8>)
    requires
        entries.dom().finite(),
        entries.dom().contains(k),
        entries[k].freq > 0,
    ensures
        hot(entries.insert(k, EntryView { freq: 0, ..entries[k] })).len() < hot(entries).len(),
{
    let after = entries.insert(k, EntryView { freq: 0, ..entries[k] });
    assert(hot(entries).contains(k));
    assert(hot(after) =~= hot(entries).remove(k));
}

proof fn lemma_evict_small(v: CacheView)
    ensures
        ({
            let (w, done) = v.evict_small();
            &&& done ==> v.entries.dom().finite() ==> w.entries.dom().finite()
                && w.entries.dom().len() < v.entries.dom().len()
            &&& !done ==> w.entries.dom() == v.entries.dom() && w.small.len() == 0
                && w.current_bytes == v.current_bytes
            &&& w.max_bytes == v.max_bytes
            &&& w.ghost_max == v.ghost_max
            &&& w.stale_slots == v.stale_slots
            &&& v.slotted() ==> w.slotted()
            &&& v.sized() ==> w.sized()
        }),
    decreases v.small.len(),
{
    if v.small.len() > 0 {
        let k = v.small[0];
        let rest = CacheView { small: v.small.skip(1), ..v };
        assert forall|q: Seq<u8>| q != k && v.small.contains(q) implies rest.small.contains(q) by {
            let i = choose|i: int| 0 <= i < v.small.len() && v.small[i] == q;
            assert(rest.small[i - 1] == q);
        }
        if !v.entries.dom().contains(k) {
            lemma_evict_small(rest);
        } else if v.entries[k].freq > 0 {
            let next = CacheView { main: rest.main.push(k), ..rest.cooled(k) };
            assert(next.entries.dom() =~= v.entries.dom());
            if v.slotted() {
                assert forall|q: Seq<u8>| #[trigger] next.entries.dom().contains(q) implies
                    next.small.contains(q) || next.main.contains(q) by {
                    lemma_push_contains(rest.main, k, q);
                }
            }
            lemma_evict_small(next);
        } else {
            let w = rest.dropped(k).ghosted(k);
            assert(w.entries.dom() =~= v.entries.dom().remove(k));
        }
    }
}

proof fn lemma_push_contains(s: Seq<Seq<u8>>, k: Seq<u8>, q: Seq<u8>)
    ensures
        s.push(k).contains(q) <==> q == k || s.contains(q),
{
    assert(s.push(k)[s.len() as int] == k);
    if s.contains(q) {
        let i = choose|i: int| 0 <= i < s.len() && s[i] == q;
        assert(s.push(k)[i] == q);
    }
    if s.push(k).contains(q) && q != k {
        let i = choose|i: int| 0 <= i < s.push(k).len() && s.push(k)[i] == q;
        assert(s[i] == q);
    }
}

proof fn lemma_evict_main(v: CacheView)
    requires
        v.entries.dom().finite(),
    ensures
        ({
            let (w, done) = v.evict_main();
            &&& w.entries.dom().finite()
            &&& done ==> w.entries.dom().len() < v.entries.dom().len()
            &&& !done ==> w.entries.dom() == v.entries.dom() && w.main.len() == 0
                && w.current_bytes == v.current_bytes
            &&& w.small == v.small
            &&& w.max_bytes == v.max_bytes
            &&& w.ghost_max == v.ghost_max
            &&& w.ghost_set == v.ghost_set
            &&& w.ghost_queue == v.ghost_queue
            &&& w.stale_slots == v.stale_slots
            &&& v.slotted() ==> w.slotted()
            &&& v.sized() ==> w.sized()
        }),
    decreases hot(v.entries).len(), v.main.len(),
{
    if v.main.len() > 0 {
        let k = v.main[0];
        let rest = CacheView { main: v.main.skip(1), ..v };
        assert forall|q: Seq<u8>| q != k && v.main.contains(q) implies rest.main.contains(q) by {
            let i = choose|i: int| 0 <= i < v.main.len() && v.main[i] == q;
            assert(rest.main[i - 1] == q);
        }
        if !v.entries.dom().contains(k) {
            lemma_evict_main(rest);
        } else if v.entries[k].freq > 0 {
            lemma_cooled_hot(v.entries, k);
            let next = CacheView { main: rest.main.push(k), ..rest.cooled(k) };
            assert(next.entries.dom() =~= v.entries.dom());
            if v.slotted() {
                assert forall|q: Seq<u8>| #[trigger] next.entries.dom().contains(q) implies
                    next.small.contains(q) || next.main.contains(q) by {
                    lemma_push_contains(rest.main, k, q);
                }
            }
            lemma_evict_main(next);
        } else {
            assert(rest.dropped(k).entries.dom() =~= v.entries.dom().remove(k));
        }
    }
}

proof fn lemma_evict_one(v: CacheView)
    requires
        v.entries.dom().finite(),
    ensures
        ({
            let (w, done) = v.evict_one();
            &&& w.entries.dom().finite()
            &&& done ==> w.entries.dom().len() < v.entries.dom().len()
            &&& !done ==> w.entries.dom() == v.entries.dom() && w.small.len() == 0
                && w.main.len() == 0 && w.current_bytes == v.current_bytes
            &&& w.max_bytes == v.max_bytes
            &&& v.slotted() ==> w.slotted()
            &&& v.sized() ==> w.sized()
        }),
{
    lemma_evict_small(v);
    let (w, done) = v.evict_small();
    if !done {
        lemma_evict_main(w);
    }
}

/// The keys of a queue.
pub open spec fn queue_view(q: Seq<Vec<u8>>) -> Seq<Seq<u8>> {
    q.map_values(|k: Vec<u8>| k@)
}

/// A cache for the values of one shard.
pub struct MemCache {
    entries: FxMap<CacheEntry>,
    small: VecDeque<Vec<u8>>,
    main: VecDeque<Vec<u8>>,
    /// Ghost membership. Stores full keys to avoid hash collision.
    ghosts: FxMap<()>,
    /// Insertion-ordered queue for bounded eviction of ghost entries.
    ghost_queue: VecDeque<Vec<u8>>,
    /// Maximum number of ghost entries (~10% of estimated total capacity).
    ghost_max: usize,
    current_bytes: usize,
    max_bytes: usize,
    /// Slots left in Small/Main by removals. Compacted when they dominate queue length.
    stale_slots: u128,
}

/// What a hit gives: value, expiry, metadata and revision.
pub type Hit = (Vec<u8>, Option<u64>, Option<Vec<u8>>, u64);

impl MemCache {
    pub closed spec fn view(&self) -> CacheView {
        CacheView {
            entries: self.entries@.map_values(|e: CacheEntry| e@),
            small: queue_view(self.small@),
            main: queue_view(self.main@),
            ghost_set: self.ghosts@.dom(),
            ghost_queue: queue_view(self.ghost_queue@),
            ghost_max: self.ghost_max as nat,
            current_bytes: self.current_bytes as nat,
            max_bytes: self.max_bytes as nat,
            stale_slots: self.stale_slots as nat,
        }
    }

    /// What holds of a cache while entries are still to leave.
    closed spec fn inner(&self) -> bool {
        &&& self.entries.wf()
        &&& self.ghosts.wf()
        &&& self.current_bytes == total(self.entries.items(), entry_weight())
        &&& self@.slotted()
        &&& self@.sized()
        &&& self@.queued()
        &&& self.ghosts@.dom().len() <= self.ghost_max
        &&& self.ghost_max > 0
        &&& self.stale_slots <= usize::MAX
    }

    /// The bytes used are the sizes of the entries, and within the limit; each size is that of
    /// the entry's key, value and metadata; every entry has a slot in a queue; the ghosts are
    /// bounded.
    pub closed spec fn wf(&self) -> bool {
        self.inner() && self.current_bytes <= self.max_bytes
    }

    /// What a well-formed cache keeps to.
    pub proof fn lemma_limits(&self)
        requires
            self.wf(),
        ensures
            self@.current_bytes <= self@.max_bytes,
            self@.ghost_set.len() <= self@.ghost_max,
            self@.entries.dom().finite(),
            self@.slotted(),
            self@.sized(),
            self@.current_bytes == sum_sizes(self@.entries),
    {
        self.entries.lemma_len();
        assert(self@.entries.dom() =~= self.entries@.dom());
        self.lemma_sum();
    }

    /// Behind every operation, the bytes used are what the keys, the values and the metadata of
    /// the entries take, added up, and no more than the limit.
    pub proof fn lemma_bytes_used(&self)
        requires
            self.wf(),
        ensures
            self@.current_bytes == bytes_of(self@.entries),
            bytes_of(self@.entries) <= self@.max_bytes,
    {
        self.lemma_limits();
        lemma_bytes_of(self@);
    }

    proof fn lemma_sum(&self)
        requires
            self.inner(),
        ensures
            self@.current_bytes == sum_sizes(self@.entries),
    {
        self.entries.lemma_items();
        let items = self.entries.items();
        lemma_first_entries(items);
        let m = first_entries(items);
        assert forall|k: Seq<u8>| #[trigger] m.dom().contains(k) implies self@.entries.dom().contains(
            k,
        ) && m[k] == self@.entries[k] by {
            let i = choose|i: int| 0 <= i < items.len() && (#[trigger] items[i]).0@ == k;
            assert(self.entries@.dom().contains(items[i].0@));
        }
        assert forall|k: Seq<u8>| #[trigger] self@.entries.dom().contains(k) implies m.dom().contains(
            k,
        ) by {
            assert(self.entries@.dom().contains(k));
            assert(items[self.entries.place(k)].0@ == k);
        }
        assert(m =~= self@.entries);
    }

    pub fn new(max_bytes: usize) -> (r: Self)
        ensures
            r.wf(),
            r@ == CacheView::fresh(max_bytes),
    {
        // Bound ghost to ~10% of estimated entry count (assuming >= 64 bytes per entry).
        let ghost_max: usize = if max_bytes / 640 > 64 {
            max_bytes / 640
        } else {
            64
        };
        let r = MemCache {
            entries: FxMap::new(),
            small: VecDeque::new(),
            main: VecDeque::new(),
            ghosts: FxMap::new(),
            ghost_queue: VecDeque::new(),
            ghost_max,
            current_bytes: 0,
            max_bytes,
            stale_slots: 0,
        };
        proof {
            assert(r@.entries =~= Map::empty());
            assert(r@.ghost_set =~= Set::empty());
            assert(r@.small =~= seq![]);
            assert(r@.main =~= seq![]);
            assert(r@.ghost_queue =~= seq![]);
        }
        r
    }

    pub fn len(&self) -> (n: usize)
        requires
            self.wf(),
        ensures
            n == self@.entries.dom().len(),
    {
        assert(self@.entries.dom() =~= self.entries@.dom());
        self.entries.len()
    }

    pub fn is_empty(&self) -> (r: bool)
        requires
            self.wf(),
        ensures
            r == (self@.entries.dom().len() == 0),
    {
        self.len() == 0
    }

    pub fn bytes_used(&self) -> (n: usize)
        ensures
            n == self@.current_bytes,
    {
        self.current_bytes
    }

    /// How many ghosts there are.
    pub fn ghost_len(&self) -> (n: usize)
        requires
            self.wf(),
        ensures
            n == self@.ghost_set.len(),
            n <= self@.ghost_max,
    {
        self.ghosts.len()
    }

    /// How many ghosts there may be.
    pub fn ghost_max(&self) -> (n: usize)
        ensures
            n == self@.ghost_max,
    {
        self.ghost_max
    }

    /// Marks the key's entry as used or not.
    fn set_freq(&mut self, key: &[u8], freq: u8)
        requires
            old(self).inner(),
            old(self)@.entries.dom().contains(key@),
        ensures
            final(self).inner(),
            final(self)@ == (CacheView {
                entries: old(self)@.entries.insert(
                    key@,
                    EntryView { freq, ..old(self)@.entries[key@] },
                ),
                ..old(self)@
            }),
    {
        proof {
            self.entries.lemma_items();
        }
        let ghost place = self.entries.place(key@);
        let ghost items = self.entries.items();
        match self.entries.get_mut(key) {
            Some(e) => {
                e.freq = freq;
            },
            None => {},
        }
        proof {
            let p = self.entries.items()[place];
            lemma_total_update(items, place, p, entry_weight());
            assert(self.entries.items() =~= items.update(place, p));
            assert(self@.entries =~= old(self)@.entries.insert(
                key@,
                EntryView { freq, ..old(self)@.entries[key@] },
            ));
            assert(self@.entries.dom() =~= old(self)@.entries.dom());
        }
    }

    /// Takes the key's entry out.
    fn take(&mut self, key: &[u8])
        requires
            old(self).inner(),
            old(self)@.entries.dom().contains(key@),
        ensures
            final(self).inner(),
            final(self)@ == old(self)@.dropped(key@),
            final(self)@.current_bytes <= old(self)@.current_bytes,
            old(self)@.entries[key@].size <= old(self)@.current_bytes,
    {
        proof {
            self.entries.lemma_items();
            lemma_total_swapped_out(
                self.entries.items(),
                self.entries.place(key@),
                entry_weight(),
            );
        }
        match self.entries.remove(key) {
            Some(e) => {
                self.current_bytes = self.current_bytes - e.size;
            },
            None => {},
        }
        proof {
            assert(self@.entries =~= old(self)@.entries.remove(key@));
            assert(self@.ghost_set == old(self)@.ghost_set);
            assert(self@.ghost_queue == old(self)@.ghost_queue);
            assert forall|q: Seq<u8>| #[trigger] self@.entries.dom().contains(q) implies
                self@.small.contains(q) || self@.main.contains(q) by {
                assert(old(self)@.entries.dom().contains(q));
            }
        }
    }

    /// Returns `(value, expires_at_ms, metadata, revision)` if the key is there and is not expired,
    /// and marks it as used. An expired entry leaves.
    pub fn get(&mut self, key: &[u8], now_ms: u64) -> (r: Option<Hit>)
        requires
            old(self).wf(),
        ensures
            final(self).wf(),
            final(self)@ == old(self)@.read(key@, now_ms).0,
            match r {
                Some((value, expires_at_ms, metadata, revision)) => {
                    let e = old(self)@.entries[key@];
                    &&& old(self)@.read(key@, now_ms).1 == Some(e)
                    &&& value@ == e.value
                    &&& expires_at_ms == e.expires_at_ms
                    &&& meta_view(metadata) == e.metadata
                    &&& revision == e.revision
                },
                None => old(self)@.read(key@, now_ms).1 is None,
            },
    {
        let hit = match self.entries.get(key) {
            None => {
                return None;
            },
            Some(e) => {
                let expired = match e.expires_at_ms {
                    Some(ms) => ms <= now_ms,
                    None => false,
                };
                if expired {
                    None
                } else {
                    let metadata = match &e.metadata {
                        Some(m) => Some(bytes::to_owned(m.as_slice())),
                        None => None,
                    };
                    Some((bytes::to_owned(e.value.as_slice()), e.expires_at_ms, metadata, e.revision))
                }
            },
        };
        match hit {
            None => {
                self.take(key);
                None
            },
            Some(h) => {
                self.set_freq(key, 1);
                Some(h)
            },
        }
    }

    /// Insert a key into the bounded ghost set, evicting the oldest entry if at capacity.
    fn ghost_insert(&mut self, key: Vec<u8>)
        requires
            old(self).inner(),
        ensures
            final(self).inner(),
            final(self)@ == old(self)@.ghosted(key@),
    {
        let ghost k = key@;
        let ghost want = trimmed(self@.ghost_set, self@.ghost_queue, self@.ghost_max);
        // Drain stale queue entries (already removed from the set) and enforce the cap.
        loop
            invariant
                self.inner(),
                self@ == (CacheView {
                    ghost_set: self@.ghost_set,
                    ghost_queue: self@.ghost_queue,
                    ..old(self)@
                }),
                trimmed(self@.ghost_set, self@.ghost_queue, self@.ghost_max) == want,
            ensures
                self.inner(),
                self@ == (CacheView {
                    ghost_set: want.0,
                    ghost_queue: want.1,
                    ..old(self)@
                }),
                self.ghosts@.dom().len() < self.ghost_max,
            decreases self.ghost_queue@.len(),
        {
            let n: usize = self.ghosts.len();
            if n < self.ghost_max {
                break;
            }
            let ghost before = *self;
            match self.ghost_queue.pop_front() {
                Some(gone) => {
                    self.ghosts.remove(gone.as_slice());
                    proof {
                        assert(self@.ghost_queue =~= before@.ghost_queue.skip(1));
                        assert(self@.ghost_set =~= before@.ghost_set.remove(gone@));
                        assert(before@.ghost_queue[0] == gone@);
                        assert forall|q: Seq<u8>| #[trigger]
                            self@.ghost_set.contains(q) implies self@.ghost_queue.contains(q) by {
                            assert(before@.ghost_set.contains(q));
                            let i = choose|i: int|
                                0 <= i < before@.ghost_queue.len() && before@.ghost_queue[i] == q;
                            assert(self@.ghost_queue[i - 1] == q);
                        }
                        before.ghosts.lemma_len();
                        assert(self@.entries == before@.entries);
                        assert(self@.small == before@.small && self@.main == before@.main);
                        assert forall|q: Seq<u8>| #[trigger]
                            self@.entries.dom().contains(q) implies self@.small.contains(q)
                            || self@.main.contains(q) by {
                            assert(before@.entries.dom().contains(q));
                        }
                    }
                },
                None => {
                    proof {
                        assert(self@.ghost_set =~= Set::empty()) by {
                            assert forall|q: Seq<u8>| !self@.ghost_set.contains(q) by {
                                if self@.ghost_set.contains(q) {
                                    assert(before@.ghost_queue.contains(q));
                                }
                            }
                        }
                        assert(false);
                    }
                    break;
                },
            }
        }
        let ghost mid = *self;
        let copy = bytes::to_owned(key.as_slice());
        proof {
            self.ghosts.lemma_len();
        }
        let new = self.ghosts.insert(copy, ()).is_none();
        if new {
            self.ghost_queue.push_back(key);
            assert(self@.ghost_queue =~= mid@.ghost_queue.push(k));
        }
        proof {
            self.ghosts.lemma_len();
            assert(self@.ghost_set =~= mid@.ghost_set.insert(k));
            assert forall|q: Seq<u8>| #[trigger] self@.ghost_set.contains(q) implies
                self@.ghost_queue.contains(q) by {
                lemma_push_contains(mid@.ghost_queue, k, q);
                if q != k {
                    assert(mid@.ghost_set.contains(q));
                }
            }
            assert(self@ =~= old(self)@.ghosted(k));
        }
    }

    /// Phase 1 of an eviction.
    fn evict_small(&mut self) -> (done: bool)
        requires
            old(self).inner(),
        ensures
            final(self).inner(),
            (final(self)@, done) == old(self)@.evict_small(),
            final(self)@.current_bytes <= old(self)@.current_bytes,
    {
        loop
            invariant
                self.inner(),
                self@.evict_small() == old(self)@.evict_small(),
                self@.current_bytes <= old(self)@.current_bytes,
            ensures
                self.inner(),
                self@.small.len() == 0,
                self@.evict_small() == old(self)@.evict_small(),
                self@.current_bytes <= old(self)@.current_bytes,
            decreases self.small@.len(),
        {
            let ghost before = *self;
            match self.small.pop_front() {
                None => {
                    break;
                },
                Some(key) => {
                    proof {
                        assert(before@.small[0] == key@);
                        assert(self@.small =~= before@.small.skip(1));
                        assert(self@ =~= (CacheView { small: before@.small.skip(1), ..before@ }));
                    }
                    let ghost k = key@;
                    let freq: u8 = match self.entries.get(key.as_slice()) {
                        // Stale slot: the key was removed.
                        None => {
                            proof {
                                lemma_slot_gone(before@, self@, k);
                            }
                            continue;
                        },
                        Some(e) => e.freq,
                    };
                    if freq > 0 {
                        // Accessed since insertion: promote to Main.
                        let ghost rest = *self;
                        let copy = bytes::to_owned(key.as_slice());
                        self.main.push_back(copy);
                        proof {
                            assert(self@.main =~= rest@.main.push(k));
                            lemma_slot_moved(before@, self@, k);
                        }
                        self.set_freq(key.as_slice(), 0);
                        assert(self@ =~= (CacheView {
                            main: rest@.main.push(k),
                            ..rest@.cooled(k)
                        }));
                    } else {
                        // Cold: evict; record in ghost.
                        let ghost rest = *self;
                        proof {
                            self.entries.lemma_items();
                            lemma_total_swapped_out(
                                self.entries.items(),
                                self.entries.place(k),
                                entry_weight(),
                            );
                        }
                        match self.entries.remove(key.as_slice()) {
                            Some(e) => {
                                self.current_bytes = self.current_bytes - e.size;
                            },
                            None => {},
                        }
                        proof {
                            assert(self@.entries =~= rest@.entries.remove(k));
                            assert(self@ =~= rest@.dropped(k));
                            lemma_slot_dropped(before@, self@, k);
                        }
                        self.ghost_insert(key);
                        return true;
                    }
                },
            }
        }
        false
    }

    /// Phase 2 of an eviction.
    fn evict_main(&mut self) -> (done: bool)
        requires
            old(self).inner(),
        ensures
            final(self).inner(),
            (final(self)@, done) == old(self)@.evict_main(),
            final(self)@.current_bytes <= old(self)@.current_bytes,
    {
        loop
            invariant
                self.inner(),
                self@.evict_main() == old(self)@.evict_main(),
                self@.current_bytes <= old(self)@.current_bytes,
            ensures
                self.inner(),
                self@.main.len() == 0,
                self@.entries.dom().finite(),
                self@.evict_main() == old(self)@.evict_main(),
                self@.current_bytes <= old(self)@.current_bytes,
            decreases hot(self@.entries).len(), self.main@.len(),
        {
            let ghost before = *self;
            proof {
                self.entries.lemma_len();
                assert(self@.entries.dom() =~= self.entries@.dom());
            }
            match self.main.pop_front() {
                None => {
                    break;
                },
                Some(key) => {
                    proof {
                        assert(before@.main[0] == key@);
                        assert(self@.main =~= before@.main.skip(1));
                        assert(self@ =~= (CacheView { main: before@.main.skip(1), ..before@ }));
                    }
                    let ghost k = key@;
                    let freq: u8 = match self.entries.get(key.as_slice()) {
                        // Stale slot: the key was removed.
                        None => {
                            proof {
                                lemma_main_slot_gone(before@, self@, k);
                            }
                            continue;
                        },
                        Some(e) => e.freq,
                    };
                    if freq > 0 {
                        // Give one more chance.
                        let ghost rest = *self;
                        let copy = bytes::to_owned(key.as_slice());
                        self.main.push_back(copy);
                        proof {
                            assert(self@.main =~= rest@.main.push(k));
                            lemma_main_slot_moved(before@, self@, k);
                            lemma_cooled_hot(before@.entries, k);
                        }
                        self.set_freq(key.as_slice(), 0);
                        assert(self@ =~= (CacheView {
                            main: rest@.main.push(k),
                            ..rest@.cooled(k)
                        }));
                    } else {
                        let ghost rest = *self;
                        proof {
                            self.entries.lemma_items();
                            lemma_total_swapped_out(
                                self.entries.items(),
                                self.entries.place(k),
                                entry_weight(),
                            );
                        }
                        match self.entries.remove(key.as_slice()) {
                            Some(e) => {
                                self.current_bytes = self.current_bytes - e.size;
                            },
                            None => {},
                        }
                        proof {
                            assert(self@.entries =~= rest@.entries.remove(k));
                            assert(self@ =~= rest@.dropped(k));
                            lemma_main_slot_dropped(before@, self@, k);
                        }
                        return true;
                    }
                },
            }
        }
        false
    }

    /// Evict one entry. Returns `true` if an entry was evicted.
    fn evict_one(&mut self) -> (done: bool)
        requires
            old(self).inner(),
        ensures
            final(self).inner(),
            (final(self)@, done) == old(self)@.evict_one(),
            final(self)@.current_bytes <= old(self)@.current_bytes,
    {
        if self.evict_small() {
            return true;
        }
        self.evict_main()
    }

    fn evict_to_limit(&mut self)
        requires
            old(self).inner(),
        ensures
            final(self).wf(),
            final(self)@ == old(self)@.evict_to_limit(),
            final(self)@.max_bytes == old(self)@.max_bytes,
    {
        proof {
            self.entries.lemma_len();
            assert(self@.entries.dom() =~= self.entries@.dom());
        }
        loop
            invariant
                self.inner(),
                self@.entries.dom().finite(),
                self@.max_bytes == old(self)@.max_bytes,
                self@.evict_to_limit() == old(self)@.evict_to_limit(),
            ensures
                self.wf(),
                self@.max_bytes == old(self)@.max_bytes,
                self@ == old(self)@.evict_to_limit(),
            decreases self@.entries.dom().len(),
        {
            let ghost before = *self;
            if self.current_bytes <= self.max_bytes {
                break;
            }
            proof {
                lemma_evict_one(self@);
            }
            if !self.evict_one() {
                proof {
                    lemma_no_entries(self@);
                    self.entries.lemma_items();
                    assert(self.entries.items() =~= seq![]) by {
                        if self.entries.items().len() > 0 {
                            let k = self.entries.items()[0].0@;
                            assert(self.entries@.dom().contains(k));
                            assert(self@.entries.dom().contains(k));
                        }
                    }
                }
                break;
            }
        }
    }
}

/// The keys in the cache that begin with a prefix.
pub open spec fn prefixed_keys(entries: Map<Seq<u8>, EntryView>, prefix: Seq<u8>) -> Set<Seq<u8>> {
    entries.dom().filter(|k: Seq<u8>| has_prefix(k, prefix))
}

/// The keys in the cache whose expiry has come.
pub open spec fn expired_keys(entries: Map<Seq<u8>, EntryView>, now_ms: u64) -> Set<Seq<u8>> {
    entries.dom().filter(|k: Seq<u8>| entries[k].expired(now_ms))
}

/// The state behind a write of these contents.
pub open spec fn inserted(
    v: CacheView,
    k: Seq<u8>,
    value: Seq<u8>,
    expires_at_ms: Option<u64>,
    metadata: Option<Seq<u8>>,
    meta_size: usize,
    revision: u64,
) -> CacheView {
    if v.entries.dom().contains(k) {
        v.updated(k, value, expires_at_ms, metadata, meta_size, revision).evict_to_limit()
    } else {
        v.added(k, value, expires_at_ms, metadata, meta_size, revision).evict_to_limit()
    }
}

impl MemCache {
    /// Update an existing entry in-place. Returns `true` if the key was found and updated; `false`
    /// if absent.
    pub fn try_update(
        &mut self,
        key: &[u8],
        value: Vec<u8>,
        expires_at_ms: Option<u64>,
        metadata: Option<Vec<u8>>,
        meta_size: usize,
        revision: u64,
    ) -> (r: bool)
        requires
            old(self).wf(),
            old(self)@.entries.dom().contains(key@) ==> old(self)@.has_room(
                key@,
                value@,
                meta_size,
            ),
        ensures
            final(self).wf(),
            r == old(self)@.entries.dom().contains(key@),
            final(self)@ == (if r {
                old(self)@.updated(
                    key@,
                    value@,
                    expires_at_ms,
                    meta_view(metadata),
                    meta_size,
                    revision,
                ).evict_to_limit()
            } else {
                old(self)@
            }),
            final(self)@.max_bytes == old(self)@.max_bytes,
    {
        if !self.entries.contains(key) {
            return false;
        }
        proof {
            self.entries.lemma_items();
            lemma_total_swapped_out(
                self.entries.items(),
                self.entries.place(key@),
                entry_weight(),
            );
        }
        let mut size: usize = key.len() + value.len() + meta_size;
        if size == 0 {
            size = 1;
        }
        let ghost place = self.entries.place(key@);
        let ghost items = self.entries.items();
        let ghost val = value@;
        let ghost met = meta_view(metadata);
        let mut old_size: usize = 0;
        match self.entries.get_mut(key) {
            Some(e) => {
                old_size = e.size;
                e.freq = 1;
                e.value = value;
                e.expires_at_ms = expires_at_ms;
                e.metadata = metadata;
                e.size = size;
                e.meta_size = Ghost(meta_size);
                e.revision = revision;
            },
            None => {},
        }
        proof {
            let p = self.entries.items()[place];
            lemma_total_update(items, place, p, entry_weight());
            assert(self.entries.items() =~= items.update(place, p));
        }
        self.current_bytes = self.current_bytes - old_size + size;
        proof {
            let want = old(self)@.updated(key@, val, expires_at_ms, met, meta_size, revision);
            assert(self@.entries =~= want.entries);
            assert(self@.entries.dom() =~= old(self)@.entries.dom());
            assert(self@ =~= want);
            assert forall|q: Seq<u8>| #[trigger] self@.entries.dom().contains(q) implies
                self@.small.contains(q) || self@.main.contains(q) by {
                assert(old(self)@.entries.dom().contains(q));
            }
            assert forall|q: Seq<u8>| #[trigger] self@.ghost_set.contains(q) implies
                self@.ghost_queue.contains(q) by {
                assert(old(self)@.ghost_set.contains(q));
            }
        }
        self.evict_to_limit();
        true
    }

    /// Puts these contents under the key. The cache is within its limit again behind it.
    pub fn insert(
        &mut self,
        key: Vec<u8>,
        value: Vec<u8>,
        expires_at_ms: Option<u64>,
        metadata: Option<Vec<u8>>,
        meta_size: usize,
        revision: u64,
    )
        requires
            old(self).wf(),
            old(self)@.has_room(key@, value@, meta_size),
        ensures
            final(self).wf(),
            final(self)@ == inserted(
                old(self)@,
                key@,
                value@,
                expires_at_ms,
                meta_view(metadata),
                meta_size,
                revision,
            ),
            final(self)@.max_bytes == old(self)@.max_bytes,
    {
        // Update in place if already present.
        if self.entries.contains(key.as_slice()) {
            self.try_update(
                key.as_slice(),
                value,
                expires_at_ms,
                metadata,
                meta_size,
                revision,
            );
            return;
        }
        let mut size: usize = key.len() + value.len() + meta_size;
        if size == 0 {
            size = 1;
        }
        let ghost k = key@;
        let ghost val = value@;
        let ghost met = meta_view(metadata);
        let in_main = self.ghosts.contains(key.as_slice());
        let entry = CacheEntry {
            value,
            expires_at_ms,
            metadata,
            freq: 0,
            size,
            meta_size: Ghost(meta_size),
            revision,
        };
        let copy = bytes::to_owned(key.as_slice());
        proof {
            lemma_total_push(self.entries.items(), (copy, entry), entry_weight());
        }
        self.entries.insert(copy, entry);
        self.current_bytes = self.current_bytes + size;
        let ghost was = old(self)@;
        if in_main {
            proof {
                self.ghosts.lemma_len();
            }
            self.ghosts.remove(key.as_slice());
            self.main.push_back(key);
            assert(self@.main =~= was.main.push(k));
            assert(self@.ghost_set =~= was.ghost_set.remove(k));
        } else {
            self.small.push_back(key);
            assert(self@.small =~= was.small.push(k));
        }
        proof {
            let want = was.added(k, val, expires_at_ms, met, meta_size, revision);
            assert(self@.entries =~= want.entries);
            assert(self@ =~= want);
            assert forall|q: Seq<u8>| #[trigger] self@.entries.dom().contains(q) implies
                self@.small.contains(q) || self@.main.contains(q) by {
                lemma_push_contains(was.small, k, q);
                lemma_push_contains(was.main, k, q);
                if q != k {
                    assert(was.entries.dom().contains(q));
                }
            }
            assert forall|q: Seq<u8>| #[trigger] self@.ghost_set.contains(q) implies
                self@.ghost_queue.contains(q) by {
                assert(was.ghost_set.contains(q));
            }
        }
        self.evict_to_limit();
    }

    /// Removes a key. Its slot stays behind, stale.
    pub fn remove(&mut self, key: &[u8])
        requires
            old(self).wf(),
        ensures
            final(self).wf(),
            final(self)@ == old(self)@.removed(key@),
    {
        if self.entries.contains(key) {
            self.take(key);
            self.add_stale(1);
        }
    }

    /// The limit in bytes.
    pub fn max_bytes(&self) -> (n: usize)
        ensures
            n == self@.max_bytes,
    {
        self.max_bytes
    }

    /// Counts `n` more stale slots, and compacts the queues where they dominate, to bound memory
    /// growth.
    fn add_stale(&mut self, n: usize)
        requires
            old(self).wf(),
        ensures
            final(self).wf(),
            final(self)@ == old(self)@.staler(n as nat),
    {
        let stale: u128 = self.stale_slots + n as u128;
        let queue_len: u128 = self.small.len() as u128 + self.main.len() as u128;
        if stale > queue_len / 2 {
            self.compact_queues();
        } else {
            self.stale_slots = stale;
            proof {
                let was = old(self)@;
                assert(self@.entries == was.entries);
                assert forall|q: Seq<u8>| #[trigger] self@.entries.dom().contains(q) implies
                    self@.small.contains(q) || self@.main.contains(q) by {
                    assert(was.entries.dom().contains(q));
                }
                assert forall|q: Seq<u8>| #[trigger] self@.ghost_set.contains(q) implies
                    self@.ghost_queue.contains(q) by {
                    assert(was.ghost_set.contains(q));
                }
            }
        }
    }

    /// Remove stale slots (keys no longer in the cache) from both queues.
    fn compact_queues(&mut self)
        requires
            old(self).wf(),
        ensures
            final(self).wf(),
            final(self)@ == (CacheView {
                small: live_slots(old(self)@.small, old(self)@.entries),
                main: live_slots(old(self)@.main, old(self)@.entries),
                stale_slots: 0,
                ..old(self)@
            }),
    {
        retain_live(&mut self.small, &self.entries);
        retain_live(&mut self.main, &self.entries);
        self.stale_slots = 0;
        proof {
            let was = old(self)@;
            assert(self@.entries == was.entries);
            assert forall|q: Seq<u8>| #[trigger] self@.entries.dom().contains(q) implies
                self@.small.contains(q) || self@.main.contains(q) by {
                assert(was.entries.dom().contains(q));
                lemma_live_slots_keep(was.small, was.entries, q);
                lemma_live_slots_keep(was.main, was.entries, q);
            }
            assert forall|q: Seq<u8>| #[trigger] self@.ghost_set.contains(q) implies
                self@.ghost_queue.contains(q) by {
                assert(was.ghost_set.contains(q));
            }
        }
    }

    /// Removes several keys that are in the cache.
    fn remove_all(&mut self, gone: &Vec<Vec<u8>>)
        requires
            old(self).wf(),
            forall|i: int|
                0 <= i < gone@.len() ==> old(self)@.entries.dom().contains((#[trigger] gone@[i])@),
            forall|i: int, j: int|
                0 <= i < gone@.len() && 0 <= j < gone@.len() && (#[trigger] gone@[i])@ == (
                #[trigger] gone@[j])@ ==> i == j,
        ensures
            final(self).wf(),
            final(self)@ == old(self)@.without(queue_view(gone@).to_set()),
    {
        let ghost keys = queue_view(gone@);
        proof {
            assert(keys.no_duplicates()) by {
                assert forall|i: int, j: int|
                    0 <= i < keys.len() && 0 <= j < keys.len() && i != j implies keys[i]
                    != keys[j] by {
                    assert(keys[i] == gone@[i]@ && keys[j] == gone@[j]@);
                }
            }
            keys.unique_seq_to_set();
            self.lemma_limits();
        }
        if gone.len() == 0 {
            return;
        }
        let mut i: usize = 0;
        assert(self@.entries =~= old(self)@.entries.remove_keys(keys.take(0).to_set()));
        while i < gone.len()
            invariant
                self.wf(),
                i <= gone@.len(),
                keys == queue_view(gone@),
                self@.entries == old(self)@.entries.remove_keys(keys.take(i as int).to_set()),
                self@ == (CacheView {
                    entries: self@.entries,
                    current_bytes: self@.current_bytes,
                    ..old(self)@
                }),
                forall|j: int|
                    0 <= j < gone@.len() ==> old(self)@.entries.dom().contains(
                        (#[trigger] gone@[j])@,
                    ),
                forall|a: int, b: int|
                    0 <= a < gone@.len() && 0 <= b < gone@.len() && (#[trigger] gone@[a])@ == (
                    #[trigger] gone@[b])@ ==> a == b,
            decreases gone@.len() - i,
        {
            let ghost done = keys.take(i as int).to_set();
            let ghost k = gone@[i as int]@;
            proof {
                assert(!done.contains(k)) by {
                    if done.contains(k) {
                        let j = choose|j: int|
                            0 <= j < keys.take(i as int).len() && keys.take(i as int)[j] == k;
                        assert(gone@[j]@ == gone@[i as int]@);
                    }
                }
            }
            self.take(gone[i].as_slice());
            proof {
                assert(keys.take(i + 1).to_set() =~= done.insert(k)) by {
                    assert(keys.take(i + 1) =~= keys.take(i as int).push(k));
                    assert forall|q: Seq<u8>| keys.take(i + 1).to_set().contains(q) <==> done.insert(
                        k,
                    ).contains(q) by {
                        lemma_push_contains(keys.take(i as int), k, q);
                    }
                }
                assert(self@.entries =~= old(self)@.entries.remove_keys(
                    keys.take(i + 1).to_set(),
                ));
            }
            i = i + 1;
        }
        proof {
            assert(keys.take(i as int) =~= keys);
            self.lemma_limits();
        }
        self.add_stale(gone.len());
    }

    /// Remove all entries whose key starts with `prefix`.
    pub fn remove_by_prefix(&mut self, prefix: &[u8])
        requires
            old(self).wf(),
        ensures
            final(self).wf(),
            final(self)@ == old(self)@.without(prefixed_keys(old(self)@.entries, prefix@)),
    {
        let mut gone: Vec<Vec<u8>> = Vec::new();
        let mut i: usize = 0;
        let n: usize = self.entries.len();
        let ghost items = self.entries.items();
        proof {
            self.entries.lemma_items();
        }
        while i < n
            invariant
                self.wf(),
                self@ == old(self)@,
                items == self.entries.items(),
                n == items.len(),
                i <= n,
                forall|a: int, b: int|
                    0 <= a < items.len() && 0 <= b < items.len() && (#[trigger] items[a]).0@ == (
                    #[trigger] items[b]).0@ ==> a == b,
                picked(items, i as int, gone@, |p: (Vec<u8>, CacheEntry)| has_prefix(p.0@, prefix@)),
            decreases n - i,
        {
            let item = self.entries.item(i);
            let ghost was = gone@;
            if bytes::starts_with(item.0.as_slice(), prefix) {
                gone.push(bytes::to_owned(item.0.as_slice()));
            }
            proof {
                lemma_picked(
                    items,
                    i as int,
                    was,
                    gone@,
                    |p: (Vec<u8>, CacheEntry)| has_prefix(p.0@, prefix@),
                );
            }
            i = i + 1;
        }
        proof {
            self.entries.lemma_items();
            let want = prefixed_keys(self@.entries, prefix@);
            let got = queue_view(gone@).to_set();
            assert forall|k: Seq<u8>| got.contains(k) implies want.contains(k) by {
                let j = choose|j: int| 0 <= j < queue_view(gone@).len() && queue_view(gone@)[j] == k;
                let pick = |p: (Vec<u8>, CacheEntry)| has_prefix(p.0@, prefix@);
                assert(hits(items, n as int, pick, gone@[j]@));
                let m = choose|m: int|
                    0 <= m < n && pick(items[m]) && (#[trigger] items[m]).0@ == gone@[j]@;
                assert(self.entries@.dom().contains(items[m].0@));
            }
            assert forall|k: Seq<u8>| want.contains(k) implies got.contains(k) by {
                assert(self.entries@.dom().contains(k));
                let m = self.entries.place(k);
                assert(items[m].0@ == k);
                assert(holds_key(gone@, items[m].0@));
                let j = choose|j: int| 0 <= j < gone@.len() && (#[trigger] gone@[j])@ == items[m].0@;
                assert(queue_view(gone@)[j] == k);
            }
            assert(got =~= want);
            assert forall|j: int| 0 <= j < gone@.len() implies self@.entries.dom().contains(
                (#[trigger] gone@[j])@,
            ) by {
                assert(queue_view(gone@)[j] == gone@[j]@);
                assert(got.contains(gone@[j]@));
            }
        }
        self.remove_all(&gone);
    }

    /// Remove all keys expiring at or before `now_ms`. Called by background sweeper.
    pub fn sweep_expired(&mut self, now_ms: u64)
        requires
            old(self).wf(),
        ensures
            final(self).wf(),
            final(self)@ == old(self)@.without(expired_keys(old(self)@.entries, now_ms)),
    {
        let mut gone: Vec<Vec<u8>> = Vec::new();
        let mut i: usize = 0;
        let n: usize = self.entries.len();
        let ghost items = self.entries.items();
        proof {
            self.entries.lemma_items();
        }
        while i < n
            invariant
                self.wf(),
                self@ == old(self)@,
                items == self.entries.items(),
                n == items.len(),
                i <= n,
                forall|a: int, b: int|
                    0 <= a < items.len() && 0 <= b < items.len() && (#[trigger] items[a]).0@ == (
                    #[trigger] items[b]).0@ ==> a == b,
                picked(items, i as int, gone@, |p: (Vec<u8>, CacheEntry)| p.1@.expired(now_ms)),
            decreases n - i,
        {
            let item = self.entries.item(i);
            let ghost was = gone@;
            let expired = match item.1.expires_at_ms {
                Some(ms) => ms <= now_ms,
                None => false,
            };
            if expired {
                gone.push(bytes::to_owned(item.0.as_slice()));
            }
            proof {
                lemma_picked(
                    items,
                    i as int,
                    was,
                    gone@,
                    |p: (Vec<u8>, CacheEntry)| p.1@.expired(now_ms),
                );
            }
            i = i + 1;
        }
        proof {
            self.entries.lemma_items();
            let want = expired_keys(self@.entries, now_ms);
            let got = queue_view(gone@).to_set();
            assert forall|k: Seq<u8>| got.contains(k) implies want.contains(k) by {
                let j = choose|j: int| 0 <= j < queue_view(gone@).len() && queue_view(gone@)[j] == k;
                let pick = |p: (Vec<u8>, CacheEntry)| p.1@.expired(now_ms);
                assert(hits(items, n as int, pick, gone@[j]@));
                let m = choose|m: int|
                    0 <= m < n && pick(items[m]) && (#[trigger] items[m]).0@ == gone@[j]@;
                assert(self.entries@.dom().contains(items[m].0@));
            }
            assert forall|k: Seq<u8>| want.contains(k) implies got.contains(k) by {
                assert(self.entries@.dom().contains(k));
                let m = self.entries.place(k);
                assert(items[m].0@ == k);
                assert(holds_key(gone@, items[m].0@));
                let j = choose|j: int| 0 <= j < gone@.len() && (#[trigger] gone@[j])@ == items[m].0@;
                assert(queue_view(gone@)[j] == k);
            }
            assert(got =~= want);
            assert forall|j: int| 0 <= j < gone@.len() implies self@.entries.dom().contains(
                (#[trigger] gone@[j])@,
            ) by {
                assert(queue_view(gone@)[j] == gone@[j]@);
                assert(got.contains(gone@[j]@));
            }
        }
        self.remove_all(&gone);
    }
}

/// One of the first `n` pairs satisfies `p` and has this key.
spec fn hits(
    items: Seq<(Vec<u8>, CacheEntry)>,
    n: int,
    p: spec_fn((Vec<u8>, CacheEntry)) -> bool,
    k: Seq<u8>,
) -> bool {
    exists|m: int| 0 <= m < n && p(items[m]) && (#[trigger] items[m]).0@ == k
}

/// One of the keys is this one.
spec fn holds_key(keys: Seq<Vec<u8>>, k: Seq<u8>) -> bool {
    exists|j: int| 0 <= j < keys.len() && (#[trigger] keys[j])@ == k
}

/// `gone` holds the keys of the first `n` pairs that satisfy `p`, each once.
spec fn picked(
    items: Seq<(Vec<u8>, CacheEntry)>,
    n: int,
    gone: Seq<Vec<u8>>,
    p: spec_fn((Vec<u8>, CacheEntry)) -> bool,
) -> bool {
    &&& forall|j: int| 0 <= j < gone.len() ==> hits(items, n, p, (#[trigger] gone[j])@)
    &&& forall|m: int|
        0 <= m < n && p(#[trigger] items[m]) ==> holds_key(gone, items[m].0@)
    &&& forall|a: int, b: int|
        0 <= a < gone.len() && 0 <= b < gone.len() && (#[trigger] gone[a])@ == (
        #[trigger] gone[b])@ ==> a == b
}

proof fn lemma_picked(
    items: Seq<(Vec<u8>, CacheEntry)>,
    n: int,
    was: Seq<Vec<u8>>,
    gone: Seq<Vec<u8>>,
    p: spec_fn((Vec<u8>, CacheEntry)) -> bool,
)
    requires
        0 <= n < items.len(),
        picked(items, n, was, p),
        p(items[n]) ==> gone.len() == was.len() + 1 && gone.last()@ == items[n].0@,
        p(items[n]) ==> forall|j: int| 0 <= j < was.len() ==> #[trigger] gone[j] == was[j],
        !p(items[n]) ==> gone == was,
        forall|a: int, b: int|
            0 <= a < items.len() && 0 <= b < items.len() && (#[trigger] items[a]).0@ == (
            #[trigger] items[b]).0@ ==> a == b,
    ensures
        picked(items, n + 1, gone, p),
{
    let last = was.len() as int;
    assert forall|j: int| 0 <= j < gone.len() implies hits(
        items,
        n + 1,
        p,
        (#[trigger] gone[j])@,
    ) by {
        if j < last {
            assert(hits(items, n, p, was[j]@));
            let m = choose|m: int|
                0 <= m < n && p(items[m]) && (#[trigger] items[m]).0@ == was[j]@;
            assert(items[m].0@ == gone[j]@);
        } else {
            assert(items[n].0@ == gone[j]@);
        }
    }
    assert forall|m: int| 0 <= m < n + 1 && p(#[trigger] items[m]) implies holds_key(
        gone,
        items[m].0@,
    ) by {
        if m < n {
            assert(holds_key(was, items[m].0@));
            let j = choose|j: int| 0 <= j < was.len() && (#[trigger] was[j])@ == items[m].0@;
            assert(gone[j] == was[j]);
        } else {
            assert(gone[last]@ == items[m].0@);
        }
    }
    assert forall|a: int, b: int|
        0 <= a < gone.len() && 0 <= b < gone.len() && (#[trigger] gone[a])@ == (
        #[trigger] gone[b])@ implies a == b by {
        if a < last && b < last {
            assert(was[a] == gone[a] && was[b] == gone[b]);
        } else if a < last {
            assert(hits(items, n, p, was[a]@));
            let m = choose|m: int|
                0 <= m < n && p(items[m]) && (#[trigger] items[m]).0@ == was[a]@;
            assert(items[m].0@ == items[n].0@);
        } else if b < last {
            assert(hits(items, n, p, was[b]@));
            let m = choose|m: int|
                0 <= m < n && p(items[m]) && (#[trigger] items[m]).0@ == was[b]@;
            assert(items[m].0@ == items[n].0@);
        }
    }
}

/// A live key's slot stays.
proof fn lemma_live_slots_keep(q: Seq<Seq<u8>>, entries: Map<Seq<u8>, EntryView>, k: Seq<u8>)
    requires
        entries.dom().contains(k),
    ensures
        q.contains(k) ==> live_slots(q, entries).contains(k),
    decreases q.len(),
{
    if q.contains(k) {
        let i = choose|i: int| 0 <= i < q.len() && q[i] == k;
        let head = q.drop_last();
        if i < head.len() {
            assert(head[i] == k);
            lemma_live_slots_keep(head, entries, k);
        }
        lemma_push_contains(live_slots(head, entries), q.last(), k);
    }
}

/// Keeps the slots whose key is in the cache, in order.
fn retain_live(queue: &mut VecDeque<Vec<u8>>, entries: &FxMap<CacheEntry>)
    requires
        entries.wf(),
    ensures
        queue_view(final(queue)@) == live_slots(
            queue_view(old(queue)@),
            entries@.map_values(|e: CacheEntry| e@),
        ),
{
    let ghost all = queue_view(queue@);
    let ghost map = entries@.map_values(|e: CacheEntry| e@);
    let n: usize = queue.len();
    let mut i: usize = 0;
    proof {
        assert(all.take(0) =~= seq![]);
        assert(queue_view(queue@) =~= all.skip(0) + live_slots(all.take(0), map));
    }
    while i < n
        invariant
            entries.wf(),
            map == entries@.map_values(|e: CacheEntry| e@),
            n == all.len(),
            i <= n,
            queue_view(queue@) == all.skip(i as int) + live_slots(all.take(i as int), map),
        decreases n - i,
    {
        let ghost was = queue_view(queue@);
        let ghost done = live_slots(all.take(i as int), map);
        proof {
            assert(was[0] == all[i as int]);
            assert(all.take(i + 1).drop_last() =~= all.take(i as int));
        }
        match queue.pop_front() {
            Some(key) => {
                assert(queue_view(queue@) =~= was.skip(1));
                assert(key@ == all[i as int]);
                let ghost rest = queue_view(queue@);
                if entries.contains(key.as_slice()) {
                    queue.push_back(key);
                    assert(queue_view(queue@) =~= rest.push(all[i as int]));
                    assert(queue_view(queue@) =~= all.skip(i + 1) + done.push(all[i as int]));
                } else {
                    assert(queue_view(queue@) =~= all.skip(i + 1) + done);
                }
            },
            None => {},
        }
        i = i + 1;
    }
    assert(all.take(n as int) =~= all);
    assert(queue_view(queue@) =~= live_slots(all, map));
}

/// The entry says the same, whether or not it was used.
pub open spec fn same_contents(a: EntryView, b: EntryView) -> bool {
    EntryView { freq: 0, ..a } == EntryView { freq: 0, ..b }
}

proof fn lemma_evict_small_keeps(v: CacheView, k: Seq<u8>)
    requires
        v.evict_small().0.entries.dom().contains(k),
    ensures
        v.entries.dom().contains(k),
        same_contents(v.entries[k], v.evict_small().0.entries[k]),
    decreases v.small.len(),
{
    if v.small.len() > 0 {
        let first = v.small[0];
        let rest = CacheView { small: v.small.skip(1), ..v };
        if !v.entries.dom().contains(first) {
            lemma_evict_small_keeps(rest, k);
        } else if v.entries[first].freq > 0 {
            lemma_evict_small_keeps(
                CacheView { main: rest.main.push(first), ..rest.cooled(first) },
                k,
            );
        }
    }
}

proof fn lemma_evict_main_keeps(v: CacheView, k: Seq<u8>)
    requires
        v.entries.dom().finite(),
        v.evict_main().0.entries.dom().contains(k),
    ensures
        v.entries.dom().contains(k),
        same_contents(v.entries[k], v.evict_main().0.entries[k]),
    decreases hot(v.entries).len(), v.main.len(),
{
    if v.main.len() > 0 {
        let first = v.main[0];
        let rest = CacheView { main: v.main.skip(1), ..v };
        if !v.entries.dom().contains(first) {
            lemma_evict_main_keeps(rest, k);
        } else if v.entries[first].freq > 0 {
            lemma_cooled_hot(v.entries, first);
            let next = CacheView { main: rest.main.push(first), ..rest.cooled(first) };
            assert(next.entries.dom() =~= v.entries.dom());
            lemma_evict_main_keeps(next, k);
        }
    }
}

/// Evictions change no entry that stays: what a later hit gives is what was written.
pub proof fn lemma_eviction_keeps_contents(v: CacheView, k: Seq<u8>)
    requires
        v.entries.dom().finite(),
        v.evict_to_limit().entries.dom().contains(k),
    ensures
        v.entries.dom().contains(k),
        same_contents(v.entries[k], v.evict_to_limit().entries[k]),
    decreases v.entries.dom().len(),
{
    if v.current_bytes > v.max_bytes {
        lemma_evict_one(v);
        lemma_evict_small(v);
        let (w, done) = v.evict_one();
        if done {
            lemma_eviction_keeps_contents(w, k);
        }
        let (x, small_done) = v.evict_small();
        if !small_done {
            lemma_evict_main_keeps(x, k);
        }
        lemma_evict_small_keeps(v, k);
    }
}

/// With both queues empty there is no entry.
proof fn lemma_no_entries(v: CacheView)
    requires
        v.slotted(),
        v.small.len() == 0,
        v.main.len() == 0,
    ensures
        forall|k: Seq<u8>| !v.entries.dom().contains(k),
{
}

proof fn lemma_slot_gone(before: CacheView, after: CacheView, k: Seq<u8>)
    requires
        before.slotted(),
        before.small.len() > 0,
        before.small[0] == k,
        !before.entries.dom().contains(k),
        after == (CacheView { small: before.small.skip(1), ..before }),
    ensures
        after.slotted(),
{
    assert forall|q: Seq<u8>| #[trigger] after.entries.dom().contains(q) implies
        after.small.contains(q) || after.main.contains(q) by {
        if before.small.contains(q) {
            let i = choose|i: int| 0 <= i < before.small.len() && before.small[i] == q;
            assert(after.small[i - 1] == q);
        }
    }
}

proof fn lemma_slot_moved(before: CacheView, after: CacheView, k: Seq<u8>)
    requires
        before.slotted(),
        before.small.len() > 0,
        before.small[0] == k,
        after == (CacheView {
            small: before.small.skip(1),
            main: before.main.push(k),
            ..before
        }),
    ensures
        after.slotted(),
{
    assert forall|q: Seq<u8>| #[trigger] after.entries.dom().contains(q) implies
        after.small.contains(q) || after.main.contains(q) by {
        lemma_push_contains(before.main, k, q);
        if q != k && before.small.contains(q) {
            let i = choose|i: int| 0 <= i < before.small.len() && before.small[i] == q;
            assert(after.small[i - 1] == q);
        }
    }
}

proof fn lemma_slot_dropped(before: CacheView, after: CacheView, k: Seq<u8>)
    requires
        before.slotted(),
        before.small.len() > 0,
        before.small[0] == k,
        after.small == before.small.skip(1),
        after.main == before.main,
        after.entries == before.entries.remove(k),
    ensures
        after.slotted(),
{
    assert forall|q: Seq<u8>| #[trigger] after.entries.dom().contains(q) implies
        after.small.contains(q) || after.main.contains(q) by {
        assert(before.entries.dom().contains(q));
        if before.small.contains(q) {
            let i = choose|i: int| 0 <= i < before.small.len() && before.small[i] == q;
            assert(after.small[i - 1] == q);
        }
    }
}

proof fn lemma_main_slot_gone(before: CacheView, after: CacheView, k: Seq<u8>)
    requires
        before.slotted(),
        before.main.len() > 0,
        before.main[0] == k,
        !before.entries.dom().contains(k),
        after == (CacheView { main: before.main.skip(1), ..before }),
    ensures
        after.slotted(),
{
    assert forall|q: Seq<u8>| #[trigger] after.entries.dom().contains(q) implies
        after.small.contains(q) || after.main.contains(q) by {
        if before.main.contains(q) {
            let i = choose|i: int| 0 <= i < before.main.len() && before.main[i] == q;
            assert(after.main[i - 1] == q);
        }
    }
}

proof fn lemma_main_slot_moved(before: CacheView, after: CacheView, k: Seq<u8>)
    requires
        before.slotted(),
        before.main.len() > 0,
        before.main[0] == k,
        after == (CacheView { main: before.main.skip(1).push(k), ..before }),
    ensures
        after.slotted(),
{
    assert forall|q: Seq<u8>| #[trigger] after.entries.dom().contains(q) implies
        after.small.contains(q) || after.main.contains(q) by {
        lemma_push_contains(before.main.skip(1), k, q);
        if q != k && before.main.contains(q) {
            let i = choose|i: int| 0 <= i < before.main.len() && before.main[i] == q;
            assert(before.main.skip(1)[i - 1] == q);
        }
    }
}

proof fn lemma_main_slot_dropped(before: CacheView, after: CacheView, k: Seq<u8>)
    requires
        before.slotted(),
        before.main.len() > 0,
        before.main[0] == k,
        after.main == before.main.skip(1),
        after.small == before.small,
        after.entries == before.entries.remove(k),
    ensures
        after.slotted(),
{
    assert forall|q: Seq<u8>| #[trigger] after.entries.dom().contains(q) implies
        after.small.contains(q) || after.main.contains(q) by {
        assert(before.entries.dom().contains(q));
        if before.main.contains(q) {
            let i = choose|i: int| 0 <= i < before.main.len() && before.main[i] == q;
            assert(after.main[i - 1] == q);
        }
    }
}

} // verus!
