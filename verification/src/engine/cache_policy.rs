//! What the cache promises: which reads hit, what an insert leaves, and who has to go.
use vstd::prelude::*;

use crate::engine::cache::{
    expired_keys, inserted, lemma_eviction_keeps_contents, live_slots, prefixed_keys, trimmed,
    CacheView, EntryView,
};

verus! {

/// A read hits where the key has an entry whose expiry has not come, and gives that entry. It marks
/// the entry as used; an entry whose expiry has come leaves, with its bytes. Nothing else changes.
pub proof fn lemma_cache_read(v: CacheView, k: Seq<u8>, now: u64)
    ensures
        ({
            let (w, hit) = v.read(k, now);
            let e = v.entries[k];
            &&& hit is Some <==> v.entries.dom().contains(k) && (e.expires_at_ms matches Some(ms)
                ==> ms > now)
            &&& hit is Some ==> hit == Some(e)
            &&& w.entries.dom().contains(k) <==> hit is Some
            &&& hit is Some ==> w.entries[k] == (EntryView {
                value: e.value,
                expires_at_ms: e.expires_at_ms,
                metadata: e.metadata,
                freq: 1,
                size: e.size,
                meta_size: e.meta_size,
                revision: e.revision,
            })
            &&& forall|q: Seq<u8>|
                q != k ==> (#[trigger] w.entries.dom().contains(q) <==> v.entries.dom().contains(q))
            &&& forall|q: Seq<u8>|
                q != k && v.entries.dom().contains(q) ==> #[trigger] w.entries[q] == v.entries[q]
            &&& (hit is Some || !v.entries.dom().contains(k)) ==> w.current_bytes
                == v.current_bytes
            &&& hit is None && v.entries.dom().contains(k) && e.size <= v.current_bytes
                ==> w.current_bytes + e.size == v.current_bytes
            &&& w.small == v.small && w.main == v.main && w.ghost_set == v.ghost_set
            &&& w.ghost_queue == v.ghost_queue && w.max_bytes == v.max_bytes
        }),
{
}

/// An insert that fits within the limit keeps every other entry as it is and gives the key the new
/// one. A key that is new waits among the small ones, or, where it was evicted from there not long
/// ago, among the main ones; a key that was there keeps its place and counts as used.
pub proof fn lemma_cache_insert_fits(
    v: CacheView,
    k: Seq<u8>,
    value: Seq<u8>,
    expires_at_ms: Option<u64>,
    metadata: Option<Seq<u8>>,
    meta_size: usize,
    revision: u64,
    size: nat,
)
    requires
        v.entries.dom().finite(),
        k.len() + value.len() + meta_size > 0 ==> size == k.len() + value.len() + meta_size,
        k.len() + value.len() + meta_size == 0 ==> size == 1,
        v.entries.dom().contains(k) ==> v.entries[k].size <= v.current_bytes && v.current_bytes
            - v.entries[k].size + size <= v.max_bytes,
        !v.entries.dom().contains(k) ==> v.current_bytes + size <= v.max_bytes,
    ensures
        ({
            let w = inserted(v, k, value, expires_at_ms, metadata, meta_size, revision);
            let known = v.entries.dom().contains(k);
            &&& forall|q: Seq<u8>| #[trigger]
                w.entries.dom().contains(q) <==> v.entries.dom().contains(q) || q == k
            &&& forall|q: Seq<u8>|
                q != k && v.entries.dom().contains(q) ==> #[trigger] w.entries[q] == v.entries[q]
            &&& w.entries[k] == (EntryView {
                value,
                expires_at_ms,
                metadata,
                freq: if known {
                    1
                } else {
                    0
                },
                size,
                meta_size,
                revision,
            })
            &&& known ==> w.current_bytes + v.entries[k].size == v.current_bytes + size && w.small
                == v.small && w.main == v.main && w.ghost_set == v.ghost_set
            &&& !known ==> w.current_bytes == v.current_bytes + size
            &&& !known && v.ghost_set.contains(k) ==> w.small == v.small && w.main == v.main.push(k)
                && w.ghost_set == v.ghost_set.remove(k)
            &&& !known && !v.ghost_set.contains(k) ==> w.small == v.small.push(k) && w.main
                == v.main && w.ghost_set == v.ghost_set
            &&& w.max_bytes == v.max_bytes
        }),
{
}

/// Whatever an insert evicts, what stays is what was there: the key's own entry is the new one, and
/// every other entry is an old one.
pub proof fn lemma_cache_insert_keeps(
    v: CacheView,
    k: Seq<u8>,
    value: Seq<u8>,
    expires_at_ms: Option<u64>,
    metadata: Option<Seq<u8>>,
    meta_size: usize,
    revision: u64,
    q: Seq<u8>,
)
    requires
        v.entries.dom().finite(),
        inserted(
            v,
            k,
            value,
            expires_at_ms,
            metadata,
            meta_size,
            revision,
        ).entries.dom().contains(q),
    ensures
        ({
            let e = inserted(
                v,
                k,
                value,
                expires_at_ms,
                metadata,
                meta_size,
                revision,
            ).entries[q];
            if q == k {
                e.value == value && e.expires_at_ms == expires_at_ms && e.metadata == metadata
                    && e.revision == revision && e.meta_size == meta_size
            } else {
                v.entries.dom().contains(q) && e.value == v.entries[q].value && e.expires_at_ms
                    == v.entries[q].expires_at_ms && e.metadata == v.entries[q].metadata
                    && e.revision == v.entries[q].revision && e.size == v.entries[q].size
            }
        }),
{
    let fresh = if v.entries.dom().contains(k) {
        v.updated(k, value, expires_at_ms, metadata, meta_size, revision)
    } else {
        v.added(k, value, expires_at_ms, metadata, meta_size, revision)
    };
    assert(fresh.entries.dom() =~= v.entries.dom().insert(k));
    lemma_eviction_keeps_contents(fresh, q);
    let e = fresh.evict_to_limit().entries[q];
    assert(EntryView { freq: 0, ..fresh.entries[q] } == EntryView { freq: 0, ..e });
    assert(e.value == fresh.entries[q].value);
}

/// The key is one of these.
pub open spec fn one_of(keys: Set<Seq<u8>>) -> spec_fn(Seq<u8>) -> bool {
    |k: Seq<u8>| keys.contains(k)
}

/// Nothing has to go while the bytes are within the limit.
pub proof fn lemma_no_eviction_within_limit(v: CacheView)
    requires
        v.entries.dom().finite(),
        v.current_bytes <= v.max_bytes,
    ensures
        v.evict_to_limit() == v,
{
}

/// While the bytes are over the limit the small keys go first: the main ones are touched only where
/// no small key can go.
pub proof fn lemma_small_goes_first(v: CacheView)
    ensures
        v.evict_small().1 ==> v.evict_one() == v.evict_small(),
        !v.evict_small().1 ==> v.evict_one() == v.evict_small().0.evict_main(),
{
}

/// Over the limit keys go one at a time, and no more of them than has to be: once the rest fits,
/// nothing else goes.
pub proof fn lemma_evicts_one_by_one(v: CacheView)
    requires
        v.entries.dom().finite(),
        v.current_bytes > v.max_bytes,
        v.evict_one().0.entries.dom().finite(),
    ensures
        v.evict_one().1 ==> v.evict_to_limit() == v.evict_one().0.evict_to_limit(),
        v.evict_one().1 && v.evict_one().0.current_bytes <= v.evict_one().0.max_bytes
            ==> v.evict_to_limit() == v.evict_one().0,
        !v.evict_one().1 ==> v.evict_to_limit() == v.evict_one().0,
{
    reveal_with_fuel(CacheView::evict_to_limit, 2);
}

/// Of the small keys the first goes that was not used since it came. Those before it that were used
/// move behind the main ones, in order, and count as unused again. The one that goes is remembered
/// among the ghosts.
pub proof fn lemma_small_victim(v: CacheView, i: int)
    requires
        0 <= i < v.small.len(),
        v.small.take(i + 1).no_duplicates(),
        v.entries.dom().contains(v.small[i]),
        v.entries[v.small[i]].freq == 0,
        forall|j: int|
            0 <= j < i && v.entries.dom().contains(#[trigger] v.small[j])
                ==> v.entries[v.small[j]].freq > 0,
    ensures
        ({
            let (w, done) = v.evict_small();
            &&& done
            &&& w.entries.dom() == v.entries.dom().remove(v.small[i])
            &&& v.entries[v.small[i]].size <= v.current_bytes ==> w.current_bytes
                + v.entries[v.small[i]].size == v.current_bytes
            &&& w.small == v.small.skip(i + 1)
            &&& w.main == v.main + v.small.take(i).filter(one_of(v.entries.dom()))
            &&& w.ghost_set.contains(v.small[i])
            &&& forall|j: int|
                0 <= j < i && v.entries.dom().contains(#[trigger] v.small[j])
                    ==> w.entries[v.small[j]].freq == 0
        }),
    decreases i,
{
    broadcast use Seq::filter_distributes_over_add;

    let k = v.small[0];
    let rest = CacheView { small: v.small.skip(1), ..v };
    let all = v.entries.dom();
    if i == 0 {
        assert(v.small.take(0).filter(one_of(all)) =~= seq![]) by {
            reveal(Seq::filter);
        }
        assert(v.main + seq![] =~= v.main);
    } else {
        let next = if !all.contains(k) {
            rest
        } else {
            CacheView { main: rest.main.push(k), ..rest.cooled(k) }
        };
        assert(next.entries.dom() =~= all);
        let seen = v.small.take(i + 1);
        assert forall|j: int| 0 <= j < i implies #[trigger] next.small[j] == v.small[j + 1]
            && next.small[j] != k by {
            assert(seen[j + 1] == v.small[j + 1]);
            assert(seen[0] == k);
        }
        assert(next.small.take(i).no_duplicates()) by {
            let t = next.small.take(i);
            assert forall|a: int, b: int|
                0 <= a < t.len() && 0 <= b < t.len() && a != b implies t[a] != t[b] by {
                assert(t[a] == seen[a + 1]);
                assert(t[b] == seen[b + 1]);
            }
        }
        assert(next.small[i - 1] == v.small[i]);
        lemma_small_victim(next, i - 1);
        let (w, done) = v.evict_small();
        assert(w.small =~= v.small.skip(i + 1));
        let tail = next.small.take(i - 1);
        assert(v.small.take(i) =~= seq![k] + tail);
        assert(seq![k].filter(one_of(all)) == (if all.contains(k) {
            seq![k]
        } else {
            seq![]
        })) by {
            reveal(Seq::filter);
            assert(seq![k].drop_last() =~= seq![]);
            assert(Seq::<Seq<u8>>::empty().filter(one_of(all)) =~= seq![]);
        }
        assert(w.main =~= v.main + v.small.take(i).filter(one_of(all)));
        assert forall|j: int| 0 <= j < i && all.contains(#[trigger] v.small[j]) implies w.entries[v.small[j]].freq
            == 0 by {
            if j > 0 {
                assert(next.small[j - 1] == v.small[j]);
            } else {
                lemma_evict_small_leaves(next, k);
            }
        }
    }
}

/// A key that is not among the small ones keeps its entry.
proof fn lemma_evict_small_leaves(v: CacheView, k: Seq<u8>)
    requires
        v.entries.dom().contains(k),
        v.entries[k].freq == 0,
    ensures
        v.evict_small().0.entries.dom().contains(k) ==> v.evict_small().0.entries[k].freq == 0,
    decreases v.small.len(),
{
    if v.small.len() > 0 {
        let first = v.small[0];
        let rest = CacheView { small: v.small.skip(1), ..v };
        if !v.entries.dom().contains(first) {
            lemma_evict_small_leaves(rest, k);
        } else if v.entries[first].freq > 0 {
            lemma_evict_small_leaves(
                CacheView { main: rest.main.push(first), ..rest.cooled(first) },
                k,
            );
        }
    }
}

/// Where every small key was used, none of them goes: they move behind the main ones.
pub proof fn lemma_no_small_victim(v: CacheView)
    requires
        v.small.no_duplicates(),
        forall|j: int|
            0 <= j < v.small.len() && v.entries.dom().contains(#[trigger] v.small[j])
                ==> v.entries[v.small[j]].freq > 0,
    ensures
        ({
            let (w, done) = v.evict_small();
            &&& !done
            &&& w.entries.dom() == v.entries.dom()
            &&& w.current_bytes == v.current_bytes
            &&& w.small.len() == 0
            &&& w.main == v.main + v.small.filter(one_of(v.entries.dom()))
        }),
    decreases v.small.len(),
{
    broadcast use Seq::filter_distributes_over_add;

    let all = v.entries.dom();
    if v.small.len() == 0 {
        assert(v.small.filter(one_of(all)) =~= seq![]) by {
            reveal(Seq::filter);
        }
        assert(v.main + seq![] =~= v.main);
    } else {
        let k = v.small[0];
        let rest = CacheView { small: v.small.skip(1), ..v };
        let next = if !all.contains(k) {
            rest
        } else {
            CacheView { main: rest.main.push(k), ..rest.cooled(k) }
        };
        assert(next.entries.dom() =~= all);
        assert forall|j: int| 0 <= j < next.small.len() implies #[trigger] next.small[j]
            == v.small[j + 1] && next.small[j] != k by {}
        assert(next.small.no_duplicates());
        lemma_no_small_victim(next);
        assert(v.small =~= seq![k] + next.small);
        assert(seq![k].filter(one_of(all)) == (if all.contains(k) {
            seq![k]
        } else {
            seq![]
        })) by {
            reveal(Seq::filter);
            assert(seq![k].drop_last() =~= seq![]);
            assert(Seq::<Seq<u8>>::empty().filter(one_of(all)) =~= seq![]);
        }
        let (w, done) = v.evict_small();
        assert(w.main =~= v.main + v.small.filter(one_of(all)));
    }
}

/// Of the main keys the first goes that was not used since it was last passed over. Those before it
/// that were used move to the end, in order.
pub proof fn lemma_main_victim(v: CacheView, i: int)
    requires
        v.entries.dom().finite(),
        0 <= i < v.main.len(),
        v.main.take(i + 1).no_duplicates(),
        v.entries.dom().contains(v.main[i]),
        v.entries[v.main[i]].freq == 0,
        forall|j: int|
            0 <= j < i && v.entries.dom().contains(#[trigger] v.main[j])
                ==> v.entries[v.main[j]].freq > 0,
    ensures
        ({
            let (w, done) = v.evict_main();
            &&& done
            &&& w.entries.dom() == v.entries.dom().remove(v.main[i])
            &&& v.entries[v.main[i]].size <= v.current_bytes ==> w.current_bytes
                + v.entries[v.main[i]].size == v.current_bytes
            &&& w.main == v.main.skip(i + 1) + v.main.take(i).filter(one_of(v.entries.dom()))
            &&& w.small == v.small
            &&& w.ghost_set == v.ghost_set
        }),
    decreases i,
{
    broadcast use Seq::filter_distributes_over_add;

    let k = v.main[0];
    let rest = CacheView { main: v.main.skip(1), ..v };
    let all = v.entries.dom();
    if i == 0 {
        assert(v.main.take(0).filter(one_of(all)) =~= seq![]) by {
            reveal(Seq::filter);
        }
        assert(v.main.skip(1) + seq![] =~= v.main.skip(1));
    } else {
        let next = if !all.contains(k) {
            rest
        } else {
            CacheView { main: rest.main.push(k), ..rest.cooled(k) }
        };
        assert(next.entries.dom() =~= all);
        let seen = v.main.take(i + 1);
        assert forall|j: int| 0 <= j < i implies #[trigger] next.main[j] == v.main[j + 1]
            && next.main[j] != k by {
            assert(seen[j + 1] == v.main[j + 1]);
            assert(seen[0] == k);
        }
        assert(next.main.take(i).no_duplicates()) by {
            let t = next.main.take(i);
            assert forall|a: int, b: int|
                0 <= a < t.len() && 0 <= b < t.len() && a != b implies t[a] != t[b] by {
                assert(t[a] == seen[a + 1]);
                assert(t[b] == seen[b + 1]);
            }
        }
        assert(next.main[i - 1] == v.main[i]);
        lemma_main_victim(next, i - 1);
        let tail = next.main.take(i - 1);
        assert(v.main.take(i) =~= seq![k] + tail);
        assert(seq![k].filter(one_of(all)) == (if all.contains(k) {
            seq![k]
        } else {
            seq![]
        })) by {
            reveal(Seq::filter);
            assert(seq![k].drop_last() =~= seq![]);
            assert(Seq::<Seq<u8>>::empty().filter(one_of(all)) =~= seq![]);
        }
        let (w, done) = v.evict_main();
        if all.contains(k) {
            assert(next.main.skip(i) =~= v.main.skip(i + 1).push(k));
        } else {
            assert(next.main.skip(i) =~= v.main.skip(i + 1));
        }
        assert(w.main =~= v.main.skip(i + 1) + v.main.take(i).filter(one_of(all)));
    }
}

/// The ghosts make room for one more: the oldest leave, and no more of them than has to be.
pub proof fn lemma_ghosts_make_room(set: Set<Seq<u8>>, queue: Seq<Seq<u8>>, max: nat)
    requires
        set.finite(),
        max > 0,
    ensures
        ({
            let (s, q) = trimmed(set, queue, max);
            &&& set.len() < max ==> s == set && q == queue
            &&& s.len() < max || q.len() == 0
            &&& set.len() >= max && s.len() < max ==> s.len() == max - 1
            &&& q.len() <= queue.len() && q == queue.skip(queue.len() - q.len())
            &&& forall|k: Seq<u8>| #[trigger]
                s.contains(k) <==> set.contains(k) && !queue.take(
                    queue.len() - q.len(),
                ).contains(k)
        }),
    decreases queue.len(),
{
    let (s, q) = trimmed(set, queue, max);
    if set.len() >= max && queue.len() > 0 {
        let first = queue[0];
        let rest = queue.skip(1);
        lemma_ghosts_make_room(set.remove(first), rest, max);
        let n = queue.len() - q.len();
        assert(rest.skip(n - 1) =~= queue.skip(n));
        assert(queue.take(n) =~= seq![first] + rest.take(n - 1));
        assert forall|k: Seq<u8>| queue.take(n).contains(k) <==> (k == first || #[trigger] rest.take(
            n - 1,
        ).contains(k)) by {
            if k == first {
                assert(queue.take(n)[0] == k);
            }
            if rest.take(n - 1).contains(k) {
                let short = rest.take(n - 1);
                let i = choose|i: int| 0 <= i < short.len() && short[i] == k;
                assert(queue.take(n)[i + 1] == k);
            }
            if queue.take(n).contains(k) && k != first {
                let long = queue.take(n);
                let i = choose|i: int| 0 <= i < long.len() && long[i] == k;
                assert(rest.take(n - 1)[i - 1] == k);
            }
        }
    } else {
        assert(queue.skip(0) =~= queue);
        assert(queue.take(0) =~= seq![]);
    }
}

/// Tidying a queue keeps the slots of the keys that have an entry, in order.
pub proof fn lemma_live_slots(q: Seq<Seq<u8>>, entries: Map<Seq<u8>, EntryView>)
    ensures
        live_slots(q, entries) == q.filter(one_of(entries.dom())),
    decreases q.len(),
{
    reveal(Seq::filter);
    if q.len() > 0 {
        lemma_live_slots(q.drop_last(), entries);
    }
}

/// Taking a key out takes its entry and its bytes, and no other key's.
pub proof fn lemma_cache_remove(v: CacheView, k: Seq<u8>)
    ensures
        ({
            let w = v.removed(k);
            &&& !w.entries.dom().contains(k)
            &&& forall|q: Seq<u8>|
                q != k ==> (#[trigger] w.entries.dom().contains(q) <==> v.entries.dom().contains(q))
            &&& forall|q: Seq<u8>|
                q != k && v.entries.dom().contains(q) ==> #[trigger] w.entries[q] == v.entries[q]
            &&& v.entries.dom().contains(k) && v.entries[k].size <= v.current_bytes
                ==> w.current_bytes + v.entries[k].size == v.current_bytes
            &&& !v.entries.dom().contains(k) ==> w == v
            &&& w.ghost_set == v.ghost_set && w.max_bytes == v.max_bytes
            &&& v.stale_slots + 1 <= (v.small.len() + v.main.len()) / 2 ==> w.small == v.small
                && w.main == v.main
            &&& v.entries.dom().contains(k) && v.stale_slots + 1 > (v.small.len() + v.main.len())
                / 2 ==> w.stale_slots == 0 && w.small == v.small.filter(one_of(w.entries.dom()))
                && w.main == v.main.filter(one_of(w.entries.dom()))
        }),
{
    let w = v.removed(k);
    lemma_live_slots(v.small, v.dropped(k).entries);
    lemma_live_slots(v.main, v.dropped(k).entries);
}

/// A sweep takes out exactly the entries whose expiry has come, and one by prefix exactly those whose
/// key begins with it.
pub proof fn lemma_cache_sweep(v: CacheView, now: u64, prefix: Seq<u8>, k: Seq<u8>)
    requires
        v.entries.dom().finite(),
    ensures
        v.without(expired_keys(v.entries, now)).entries.dom().contains(k)
            <==> v.entries.dom().contains(k) && (v.entries[k].expires_at_ms matches Some(ms)
            ==> ms > now),
        v.without(prefixed_keys(v.entries, prefix)).entries.dom().contains(k)
            <==> v.entries.dom().contains(k) && !(prefix.len() <= k.len() && k.take(
            prefix.len() as int,
        ) == prefix),
        v.without(expired_keys(v.entries, now)).entries.dom().contains(k) ==> v.without(
            expired_keys(v.entries, now),
        ).entries[k] == v.entries[k],
        v.without(prefixed_keys(v.entries, prefix)).entries.dom().contains(k) ==> v.without(
            prefixed_keys(v.entries, prefix),
        ).entries[k] == v.entries[k],
{
    let a = expired_keys(v.entries, now);
    let b = prefixed_keys(v.entries, prefix);
    if a.len() == 0 {
        assert(!a.contains(k));
    }
    if b.len() == 0 {
        assert(!b.contains(k));
    }
}

/// A new cache is empty, and remembers one ghost for every 640 bytes of its limit, but at least 64.
pub proof fn lemma_cache_fresh(max_bytes: usize)
    ensures
        ({
            let v = CacheView::fresh(max_bytes);
            &&& v.entries.dom() == Set::<Seq<u8>>::empty()
            &&& v.small.len() == 0 && v.main.len() == 0 && v.ghost_queue.len() == 0
            &&& v.ghost_set == Set::<Seq<u8>>::empty()
            &&& v.current_bytes == 0 && v.stale_slots == 0 && v.max_bytes == max_bytes
            &&& v.ghost_max >= 64 && v.ghost_max * 640 + 640 > max_bytes
            &&& v.ghost_max == 64 || v.ghost_max * 640 <= max_bytes
        }),
{
}

} // verus!
