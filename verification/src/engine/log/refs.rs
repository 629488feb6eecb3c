//! Blob references: the counts of the blob store against the index.
use vstd::prelude::*;

use crate::engine::log::index::{IndexEntry, IndexView, NsIndex};
use crate::engine::value_store::{ContentHash, ValueStore, ValueView};

verus! {

/// The keys whose value is the blob with this hash.
pub open spec fn referrers(valsep: Map<Seq<u8>, ContentHash>, h: ContentHash) -> Set<Seq<u8>> {
    valsep.dom().filter(|k: Seq<u8>| valsep[k] == h)
}

/// Every blob is counted once for each key that refers to it.
pub open spec fn balanced(idx: IndexView, vals: ValueView) -> bool {
    &&& idx.valsep.dom().finite()
    &&& forall|h: ContentHash| #[trigger] vals.count(h) == referrers(idx.valsep, h).len()
}

proof fn lemma_referrers_put(
    valsep: Map<Seq<u8>, ContentHash>,
    k: Seq<u8>,
    new: ContentHash,
    h: ContentHash,
)
    requires
        valsep.dom().finite(),
    ensures
        referrers(valsep.insert(k, new), h) == (if new == h {
            referrers(valsep, h).insert(k)
        } else {
            referrers(valsep, h).remove(k)
        }),
        referrers(valsep, h).finite(),
        referrers(valsep, h).contains(k) == (valsep.dom().contains(k) && valsep[k] == h),
{
    let a = referrers(valsep.insert(k, new), h);
    if new == h {
        assert(a =~= referrers(valsep, h).insert(k));
    } else {
        assert(a =~= referrers(valsep, h).remove(k));
    }
}

proof fn lemma_referrers_remove(valsep: Map<Seq<u8>, ContentHash>, k: Seq<u8>, h: ContentHash)
    requires
        valsep.dom().finite(),
    ensures
        referrers(valsep.remove(k), h) == referrers(valsep, h).remove(k),
        referrers(valsep, h).finite(),
        referrers(valsep, h).contains(k) == (valsep.dom().contains(k) && valsep[k] == h),
{
    assert(referrers(valsep.remove(k), h) =~= referrers(valsep, h).remove(k));
}

/// Two hashes with the same bytes are the same.
proof fn lemma_hash_bytes(a: ContentHash, b: ContentHash)
    ensures
        a@ == b@ ==> a == b,
{
    if a@ == b@ {
        assert(a =~= b);
    }
}

proof fn lemma_count_inc(vals: ValueView, g: ContentHash, h: ContentHash)
    requires
        vals.count(g) < u64::MAX,
    ensures
        vals.inc(g).count(h) == vals.count(h) + (if g == h {
            1int
        } else {
            0
        }),
{
    lemma_hash_bytes(g, h);
}

proof fn lemma_count_unref(vals: ValueView, g: ContentHash, h: ContentHash)
    ensures
        vals.unref(g).count(h) == (if g == h && vals.count(h) > 0 {
            vals.count(h) - 1
        } else {
            vals.count(h) as int
        }),
{
    lemma_hash_bytes(g, h);
}

/// A write keeps the counts right: the new blob was counted before the record was written, and
/// the blob that the key referred to before loses its reference.
pub proof fn lemma_put_balanced(
    idx: IndexView,
    vals: ValueView,
    key: Seq<u8>,
    entry: IndexEntry,
    expires_at_ms: Option<u64>,
    hash: Option<ContentHash>,
)
    requires
        balanced(idx, vals),
        vals.has_room(),
    ensures
        balanced(
            idx.insert(key, entry, expires_at_ms).set_valsep(key, hash),
            vals.inc_opt(hash).unref_opt(idx.valsep_of(key)),
        ),
{
    let after = idx.insert(key, entry, expires_at_ms).set_valsep(key, hash);
    let old_hash = idx.valsep_of(key);
    let mid = vals.inc_opt(hash);
    assert forall|h: ContentHash| #[trigger] mid.unref_opt(old_hash).count(h) == referrers(
        after.valsep,
        h,
    ).len() by {
        assert(vals.count(h) == referrers(idx.valsep, h).len());
        match hash {
            Some(g) => {
                lemma_referrers_put(idx.valsep, key, g, h);
                lemma_count_inc(vals, g, h);
            },
            None => {
                lemma_referrers_remove(idx.valsep, key, h);
            },
        }
        if let Some(o) = old_hash {
            lemma_count_unref(mid, o, h);
            assert(vals.count(o) == referrers(idx.valsep, o).len());
            lemma_referrers_remove(idx.valsep, key, o);
        }
    }
}

/// A deletion keeps the counts right.
pub proof fn lemma_remove_balanced(idx: IndexView, vals: ValueView, key: Seq<u8>)
    requires
        balanced(idx, vals),
    ensures
        balanced(idx.remove(key), vals.unref_opt(idx.valsep_of(key))),
{
    let old_hash = idx.valsep_of(key);
    assert forall|h: ContentHash| #[trigger] vals.unref_opt(old_hash).count(h) == referrers(
        idx.remove(key).valsep,
        h,
    ).len() by {
        assert(vals.count(h) == referrers(idx.valsep, h).len());
        lemma_referrers_remove(idx.valsep, key, h);
        if let Some(o) = old_hash {
            lemma_count_unref(vals, o, h);
        }
    }
}

/// A write that fails takes its reference back: the counts are as before.
pub proof fn lemma_rollback_balanced(idx: IndexView, vals: ValueView, hash: Option<ContentHash>)
    requires
        balanced(idx, vals),
        vals.has_room(),
    ensures
        balanced(idx, vals.inc_opt(hash).unref_opt(hash)),
{
    if let Some(g) = hash {
        assert forall|h: ContentHash| #[trigger] vals.inc(g).unref(g).count(h) == referrers(
            idx.valsep,
            h,
        ).len() by {
            assert(vals.count(h) == referrers(idx.valsep, h).len());
            lemma_count_inc(vals, g, h);
            lemma_count_unref(vals.inc(g), g, h);
        }
    }
}

/// A blob that may be deleted, because it has no reference, is not the value of any key.
pub proof fn lemma_garbage_is_unreferenced(
    idx: IndexView,
    vals: ValueView,
    h: ContentHash,
    key: Seq<u8>,
)
    requires
        balanced(idx, vals),
        vals.count(h) == 0,
    ensures
        idx.valsep_of(key) != Some(h),
{
    if idx.valsep_of(key) == Some(h) {
        assert(referrers(idx.valsep, h).contains(key));
        assert(referrers(idx.valsep, h).finite());
    }
}

/// The blob is still to be had: it has a reference, or its deletion waits for the next sync.
pub open spec fn kept(vals: ValueView, h: ContentHash) -> bool {
    vals.refs.dom().contains(h@) || vals.pending.contains(h)
}

/// A reference is taken or dropped.
pub enum RefStep {
    Take(ContentHash),
    Drop(ContentHash),
}

/// The counts behind these steps, one after the other.
pub open spec fn after_steps(vals: ValueView, steps: Seq<RefStep>) -> ValueView
    decreases steps.len(),
{
    if steps.len() == 0 {
        vals
    } else {
        match steps.last() {
            RefStep::Take(h) => after_steps(vals, steps.drop_last()).inc(h),
            RefStep::Drop(h) => after_steps(vals, steps.drop_last()).unref(h),
        }
    }
}

/// Every blob that is counted has a reference.
pub open spec fn counted(vals: ValueView) -> bool {
    forall|h: Seq<u8>| #[trigger] vals.refs.dom().contains(h) ==> vals.refs[h] > 0
}

/// A crash that reverts a key finds the key's blob: whatever references are taken and dropped until
/// the next sync, a blob that was the value of a key is still to be had.
pub proof fn lemma_reverted_key_has_its_blob(
    idx: IndexView,
    vals: ValueView,
    steps: Seq<RefStep>,
    key: Seq<u8>,
    h: ContentHash,
)
    requires
        balanced(idx, vals),
        counted(vals),
        idx.valsep_of(key) == Some(h),
        forall|i: int| 0 <= i < steps.len() ==> (#[trigger] after_steps(vals, steps.take(i))).has_room(),
    ensures
        kept(after_steps(vals, steps), h),
{
    if vals.count(h) == 0 {
        lemma_garbage_is_unreferenced(idx, vals, h, key);
    }
    lemma_steps_keep(vals, steps, h);
}

proof fn lemma_steps_keep(vals: ValueView, steps: Seq<RefStep>, h: ContentHash)
    requires
        counted(vals),
        kept(vals, h),
        forall|i: int| 0 <= i < steps.len() ==> (#[trigger] after_steps(vals, steps.take(i))).has_room(),
    ensures
        kept(after_steps(vals, steps), h),
        counted(after_steps(vals, steps)),
    decreases steps.len(),
{
    if steps.len() > 0 {
        let head = steps.drop_last();
        assert forall|i: int| 0 <= i < head.len() implies (#[trigger] after_steps(
            vals,
            head.take(i),
        )).has_room() by {
            assert(head.take(i) =~= steps.take(i));
            assert(after_steps(vals, steps.take(i)).has_room());
        }
        lemma_steps_keep(vals, head, h);
        let before = after_steps(vals, head);
        assert(steps.take(steps.len() - 1) =~= head);
        assert(after_steps(vals, steps.take(steps.len() - 1)).has_room());
        match steps.last() {
            RefStep::Take(g) => {
                assert(before.refs.dom().contains(g@) ==> before.refs[g@] < u64::MAX);
            },
            RefStep::Drop(g) => {
                lemma_hash_bytes(g, h);
                let after = before.unref(g);
                if before.pending.contains(h) {
                    let i = choose|i: int| 0 <= i < before.pending.len() && before.pending[i] == h;
                    assert(after.pending[i] == h);
                }
                if g == h && before.count(h) == 1 {
                    assert(after.pending[before.pending.len() as int] == h);
                }
            },
        }
    }
}

/// How many of the items carry this hash.
spec fn carriers(items: Seq<(Vec<u8>, ContentHash)>, h: ContentHash) -> nat
    decreases items.len(),
{
    if items.len() == 0 {
        0
    } else {
        carriers(items.drop_last(), h) + (if items.last().1 == h {
            1nat
        } else {
            0nat
        })
    }
}

/// The keys of the items that carry this hash.
spec fn carrier_keys(items: Seq<(Vec<u8>, ContentHash)>, h: ContentHash) -> Set<Seq<u8>>
    decreases items.len(),
{
    if items.len() == 0 {
        Set::empty()
    } else if items.last().1 == h {
        carrier_keys(items.drop_last(), h).insert(items.last().0@)
    } else {
        carrier_keys(items.drop_last(), h)
    }
}

proof fn lemma_carriers(items: Seq<(Vec<u8>, ContentHash)>, h: ContentHash)
    requires
        forall|i: int, j: int|
            0 <= i < items.len() && 0 <= j < items.len() && (#[trigger] items[i]).0@ == (
            #[trigger] items[j]).0@ ==> i == j,
    ensures
        carrier_keys(items, h).finite(),
        carrier_keys(items, h).len() == carriers(items, h),
        forall|k: Seq<u8>| #[trigger]
            carrier_keys(items, h).contains(k) <==> exists|i: int|
                0 <= i < items.len() && (#[trigger] items[i]).0@ == k && items[i].1 == h,
    decreases items.len(),
{
    if items.len() > 0 {
        let head = items.drop_last();
        assert forall|i: int, j: int|
            0 <= i < head.len() && 0 <= j < head.len() && (#[trigger] head[i]).0@ == (
            #[trigger] head[j]).0@ implies i == j by {
            assert(items[i] == head[i] && items[j] == head[j]);
        }
        lemma_carriers(head, h);
        let last = items.last();
        assert(items[items.len() - 1] == last);
        assert(!carrier_keys(head, h).contains(last.0@)) by {
            if carrier_keys(head, h).contains(last.0@) {
                let i = choose|i: int|
                    0 <= i < head.len() && (#[trigger] head[i]).0@ == last.0@ && head[i].1 == h;
                assert(items[i].0@ == items[items.len() - 1].0@);
            }
        }
        assert forall|k: Seq<u8>| #[trigger] carrier_keys(items, h).contains(k) <==> exists|i: int|
            0 <= i < items.len() && (#[trigger] items[i]).0@ == k && items[i].1 == h by {
            if carrier_keys(head, h).contains(k) {
                let i = choose|i: int|
                    0 <= i < head.len() && (#[trigger] head[i]).0@ == k && head[i].1 == h;
                assert(items[i].0@ == k && items[i].1 == h);
            }
            if exists|i: int|
                0 <= i < items.len() && (#[trigger] items[i]).0@ == k && items[i].1 == h {
                let i = choose|i: int|
                    0 <= i < items.len() && (#[trigger] items[i]).0@ == k && items[i].1 == h;
                if i < head.len() {
                    assert(head[i].0@ == k && head[i].1 == h);
                }
            }
        }
    }
}

proof fn lemma_carriers_bound(items: Seq<(Vec<u8>, ContentHash)>, h: ContentHash)
    ensures
        carriers(items, h) <= items.len(),
    decreases items.len(),
{
    if items.len() > 0 {
        lemma_carriers_bound(items.drop_last(), h);
    }
}

/// Counts the blob references of an index.
pub fn count_refs(index: &NsIndex) -> (values: ValueStore)
    requires
        index.wf(),
    ensures
        values.wf(),
        balanced(index@, values@),
        values@.pending.len() == 0,
{
    let mut values = ValueStore::new();
    let map = index.valsep_iter();
    let n: usize = map.len();
    let mut i: usize = 0;
    let ghost items = map.items();
    proof {
        map.lemma_items();
        assert(items.take(0) =~= seq![]);
    }
    while i < n
        invariant
            map.wf(),
            items == map.items(),
            n == items.len(),
            i <= n,
            values.wf(),
            values@.pending.len() == 0,
            forall|h: ContentHash| #[trigger]
                values@.count(h) == carriers(items.take(i as int), h),
            forall|k: Seq<u8>| #[trigger]
                values@.refs.dom().contains(k) ==> exists|h: ContentHash| #[trigger] h@ == k,
        decreases n - i,
    {
        let h = map.item(i).1;
        let ghost was = values@;
        proof {
            assert forall|k: Seq<u8>| #[trigger] values@.refs.dom().contains(k) implies values@.refs[k]
                < u64::MAX by {
                let g = choose|g: ContentHash| #[trigger] g@ == k;
                assert(values@.count(g) == carriers(items.take(i as int), g));
                lemma_carriers_bound(items.take(i as int), g);
            }
        }
        values.incr_ref(&h);
        proof {
            assert(items.take(i + 1).drop_last() =~= items.take(i as int));
            assert(items.take(i + 1).last() == items[i as int]);
            assert(was.count(h) == carriers(items.take(i as int), h));
            lemma_carriers_bound(items.take(i as int), h);
            assert forall|g: ContentHash| #[trigger] values@.count(g) == carriers(
                items.take(i + 1),
                g,
            ) by {
                assert(was.count(g) == carriers(items.take(i as int), g));
                lemma_count_inc(was, h, g);
            }
            assert forall|k: Seq<u8>| #[trigger] values@.refs.dom().contains(k) implies exists|
                g: ContentHash,
            | #[trigger] g@ == k by {
                if k == h@ {
                    assert(h@ == k);
                } else {
                    assert(was.refs.dom().contains(k));
                }
            }
        }
        i = i + 1;
    }
    proof {
        assert(items.take(n as int) =~= items);
        map.lemma_len();
        assert forall|h: ContentHash| #[trigger] values@.count(h) == referrers(
            index@.valsep,
            h,
        ).len() by {
            lemma_carriers(items, h);
            let a = carrier_keys(items, h);
            let b = referrers(index@.valsep, h);
            assert forall|k: Seq<u8>| a.contains(k) implies b.contains(k) by {
                let j = choose|j: int|
                    0 <= j < items.len() && (#[trigger] items[j]).0@ == k && items[j].1 == h;
                assert(map@.dom().contains(items[j].0@));
            }
            assert forall|k: Seq<u8>| b.contains(k) implies a.contains(k) by {
                assert(map@.dom().contains(k));
                let j = map.place(k);
                assert(items[j].0@ == k && items[j].1 == h);
            }
            assert(a =~= b);
        }
    }
    values
}

} // verus!
