//! The cache never gives an outdated answer: what it holds of a key is what was written last.
use vstd::prelude::*;

use crate::engine::cache::{inserted, lemma_eviction_keeps_contents, CacheView, EntryView};
use crate::engine::log::index::{IndexEntry, IndexView};
use crate::engine::store::{
    cache_key_of, cache_without_keys, expires_in, get_step, lemma_cache_keys_apart, valid_name,
    StepView,
};
use crate::engine::types::EntryData;

verus! {

/// What was written last under a key.
#[verifier::ext_equal]
pub struct Contents {
    pub value: Seq<u8>,
    pub expires_at_ms: Option<u64>,
    pub metadata: Option<Seq<u8>>,
    pub revision: u64,
}

impl Contents {
    /// A cache entry holds these contents.
    pub open spec fn held_by(self, e: EntryView) -> bool {
        &&& e.value == self.value
        &&& e.expires_at_ms == self.expires_at_ms
        &&& e.metadata == self.metadata
        &&& e.revision == self.revision
    }

    /// What a read of these contents gives.
    pub open spec fn data(self, now: u64) -> EntryData {
        EntryData {
            value: self.value,
            expires_in_ms: expires_in(self.expires_at_ms, now),
            metadata: self.metadata,
            revision: self.revision,
        }
    }
}

/// Every entry of the cache holds what was written last under its key.
pub open spec fn coherent(cache: CacheView, last: Map<Seq<u8>, Contents>) -> bool {
    forall|k: Seq<u8>| #[trigger]
        cache.entries.dom().contains(k) ==> last.dom().contains(k) && last[k].held_by(
            cache.entries[k],
        )
}

/// A write leaves the cache coherent, whatever it evicts.
pub proof fn lemma_write_keeps_coherence(
    cache: CacheView,
    last: Map<Seq<u8>, Contents>,
    k: Seq<u8>,
    c: Contents,
    meta_size: usize,
)
    requires
        coherent(cache, last),
        cache.entries.dom().finite(),
    ensures
        coherent(
            inserted(cache, k, c.value, c.expires_at_ms, c.metadata, meta_size, c.revision),
            last.insert(k, c),
        ),
{
    let v = if cache.entries.dom().contains(k) {
        cache.updated(k, c.value, c.expires_at_ms, c.metadata, meta_size, c.revision)
    } else {
        cache.added(k, c.value, c.expires_at_ms, c.metadata, meta_size, c.revision)
    };
    let after = v.evict_to_limit();
    assert forall|q: Seq<u8>| #[trigger] after.entries.dom().contains(q) implies last.insert(
        k,
        c,
    ).dom().contains(q) && last.insert(k, c)[q].held_by(after.entries[q]) by {
        lemma_eviction_keeps_contents(v, q);
        if q != k {
            assert(cache.entries.dom().contains(q));
        }
        let a = v.entries[q];
        let b = after.entries[q];
        assert((EntryView { freq: 0, ..a }).value == a.value);
        assert((EntryView { freq: 0, ..b }).value == b.value);
    }
}

/// Once a key was dropped from the cache, the cache is coherent whatever becomes of the key: it may
/// be deleted, or its expiry may change.
pub proof fn lemma_forget_keeps_coherence(
    cache: CacheView,
    last: Map<Seq<u8>, Contents>,
    k: Seq<u8>,
    now_last: Map<Seq<u8>, Contents>,
)
    requires
        coherent(cache, last),
        now_last.remove(k) == last.remove(k),
    ensures
        coherent(cache.removed(k), now_last),
{
    let after = cache.removed(k);
    assert forall|q: Seq<u8>| #[trigger] after.entries.dom().contains(q) implies now_last.dom().contains(q)
        && now_last[q].held_by(after.entries[q]) by {
        assert(q != k);
        assert(cache.entries.dom().contains(q));
        assert(last.remove(k).dom().contains(q));
        assert(last.remove(k)[q] == last[q]);
        assert(now_last.remove(k)[q] == now_last[q]);
    }
}

/// A hit gives what was written last, and that has not expired; a read leaves the cache coherent.
pub proof fn lemma_hit_is_current(
    cache: CacheView,
    last: Map<Seq<u8>, Contents>,
    idx: IndexView,
    ck: Seq<u8>,
    key: Seq<u8>,
    now: u64,
)
    requires
        coherent(cache, last),
    ensures
        coherent(get_step(cache, idx, ck, key, now).0, last),
        get_step(cache, idx, ck, key, now).1 matches StepView::Hit(d) ==> last.dom().contains(ck)
            && d == last[ck].data(now) && (last[ck].expires_at_ms matches Some(ms) ==> ms > now),
{
    let after = get_step(cache, idx, ck, key, now).0;
    assert forall|q: Seq<u8>| #[trigger] after.entries.dom().contains(q) implies last.dom().contains(q)
        && last[q].held_by(after.entries[q]) by {
        assert(cache.entries.dom().contains(q));
    }
}

/// A flush of one namespace leaves the cache as it is for the keys of all others.
pub proof fn lemma_flush_spares_others(
    cache: CacheView,
    ns: Seq<u8>,
    items: Seq<(Vec<u8>, IndexEntry)>,
    other: Seq<u8>,
    key: Seq<u8>,
)
    requires
        other != ns,
        valid_name(ns),
        valid_name(other),
    ensures
        ({
            let ck = cache_key_of(other, key);
            let after = cache_without_keys(cache, ns, items);
            &&& after.entries.dom().contains(ck) == cache.entries.dom().contains(ck)
            &&& cache.entries.dom().contains(ck) ==> after.entries[ck] == cache.entries[ck]
        }),
    decreases items.len(),
{
    if items.len() > 0 {
        lemma_flush_spares_others(cache, ns, items.drop_last(), other, key);
        let gone = items.last().0@;
        if cache_key_of(ns, gone) == cache_key_of(other, key) {
            lemma_cache_keys_apart(ns, gone, other, key);
        }
    }
}

} // verus!
