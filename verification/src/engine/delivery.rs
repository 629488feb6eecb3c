//! Who hears of what: which keys a subscriber asks for, and what it has been told.
use vstd::prelude::*;

use crate::engine::watch::{
    all_heard, all_told, heard_where, kept, told_where, EventView, KeyFilter, PrefixView, SubView,
    WatchEvent, WatchRegistry,
};

verus! {

/// A filter lets through the key that it names, or every key that begins with the prefix that it
/// names, byte by byte, and no other.
pub proof fn lemma_filter_accepts(filter: KeyFilter<'_>, key: Seq<u8>)
    ensures
        filter.accepts(key) <==> match filter {
            KeyFilter::Exact(k) => k@.len() == key.len() && forall|i: int|
                0 <= i < key.len() ==> #[trigger] key[i] == k@[i],
            KeyFilter::Prefix(p) => p@.len() <= key.len() && forall|i: int|
                0 <= i < p@.len() ==> key[i] == #[trigger] p@[i],
        },
{
    match filter {
        KeyFilter::Exact(k) => {
            if k@.len() == key.len() && forall|i: int|
                0 <= i < key.len() ==> #[trigger] key[i] == k@[i] {
                assert(k@ =~= key);
            }
        },
        KeyFilter::Prefix(p) => {
            crate::bytes::lemma_prefix_bytes(key, p@);
        },
    }
}

/// A prefix subscriber asks for the keys of its namespace that begin with its prefix.
pub proof fn lemma_prefix_wants(s: PrefixView, ns: Seq<u8>, key: Seq<u8>)
    ensures
        s.wants(ns, key) <==> s.ns == ns && s.prefix.len() <= key.len() && forall|i: int|
            0 <= i < s.prefix.len() ==> key[i] == #[trigger] s.prefix[i],
{
    crate::bytes::lemma_prefix_bytes(key, s.prefix);
}

/// Being told of an event puts it behind those that came before; a prefix subscriber that did not ask
/// for the key is as it was.
pub proof fn lemma_told(s: SubView, p: PrefixView, ns: Seq<u8>, key: Seq<u8>, event: EventView)
    ensures
        s.told(event).sent == s.sent.push(event),
        s.told(event).id == s.id,
        s.told(event).ends == s.ends,
        p.wants(ns, key) ==> p.heard(ns, key, event).sub.sent == p.sub.sent.push(event)
            && p.heard(ns, key, event).sub.id == p.sub.id,
        !p.wants(ns, key) ==> p.heard(ns, key, event) == p,
        p.heard(ns, key, event).ns == p.ns && p.heard(ns, key, event).prefix == p.prefix,
{
}

/// Handing an event on changes those to whom it could be handed, and no others.
pub proof fn lemma_handed(
    subs: Seq<SubView>,
    prefixes: Seq<PrefixView>,
    flags: Seq<bool>,
    ns: Seq<u8>,
    key: Seq<u8>,
    event: EventView,
    i: int,
)
    ensures
        told_where(subs, flags, event).len() == subs.len(),
        0 <= i < subs.len() && flags[i] ==> told_where(subs, flags, event)[i].sent
            == subs[i].sent.push(event),
        0 <= i < subs.len() && !flags[i] ==> told_where(subs, flags, event)[i] == subs[i],
        heard_where(prefixes, flags, ns, key, event).len() == prefixes.len(),
        0 <= i < prefixes.len() && flags[i] && prefixes[i].wants(ns, key) ==> heard_where(
            prefixes,
            flags,
            ns,
            key,
            event,
        )[i].sub.sent == prefixes[i].sub.sent.push(event),
        0 <= i < prefixes.len() && !(flags[i] && prefixes[i].wants(ns, key)) ==> heard_where(
            prefixes,
            flags,
            ns,
            key,
            event,
        )[i] == prefixes[i],
{
}

/// Where in what is kept the `i`th item stands whose flag is set.
pub proof fn lemma_kept_has<T>(s: Seq<T>, keep: Seq<bool>, i: int) -> (at: int)
    requires
        0 <= i < s.len(),
        keep[i],
    ensures
        0 <= at < kept(s, keep).len(),
        kept(s, keep)[at] == s[i],
    decreases s.len(),
{
    let head = s.drop_last();
    if i < head.len() {
        lemma_kept_has(head, keep, i)
    } else {
        kept(head, keep).len() as int
    }
}

/// Where the item stood that is the one at `at` of what is kept.
pub proof fn lemma_kept_from<T>(s: Seq<T>, keep: Seq<bool>, at: int) -> (i: int)
    requires
        0 <= at < kept(s, keep).len(),
    ensures
        0 <= i < s.len(),
        keep[i],
        kept(s, keep)[at] == s[i],
    decreases s.len(),
{
    let head = s.drop_last();
    if at < kept(head, keep).len() {
        lemma_kept_from(head, keep, at)
    } else {
        s.len() - 1
    }
}

/// Keeping goes item by item, in order.
pub proof fn lemma_kept_grows<T>(s: Seq<T>, keep: Seq<bool>, x: T)
    ensures
        kept(Seq::<T>::empty(), keep) == Seq::<T>::empty(),
        keep[s.len() as int] ==> kept(s.push(x), keep) == kept(s, keep).push(x),
        !keep[s.len() as int] ==> kept(s.push(x), keep) == kept(s, keep),
{
    assert(s.push(x).drop_last() =~= s);
}

/// An event on a key reaches every subscriber that stays: one that asked for the key has the event
/// behind those that it had, a prefix subscriber that did not ask stays as it was, and whoever does not
/// stay asked for the key and is noted as having missed it.
pub proof fn lemma_event_reaches(
    after: WatchRegistry,
    before: WatchRegistry,
    ns: Seq<u8>,
    key: Seq<u8>,
    event: EventView,
    keys: Seq<bool>,
    prefixes: Seq<bool>,
    i: int,
)
    requires
        after.informed(&before, ns, key, event, keys, prefixes),
    ensures
        0 <= i < before.key_subs(ns, key).len() && keys[i] ==> exists|at: int|
            0 <= at < after.key_subs(ns, key).len() && (#[trigger] after.key_subs(ns, key)[at]).id
                == before.key_subs(ns, key)[i].id && after.key_subs(ns, key)[at].sent
                == before.key_subs(ns, key)[i].sent.push(event),
        0 <= i < before.prefix_subs().len() && !before.prefix_subs()[i].wants(ns, key) ==> exists|
            at: int,
        |
            0 <= at < after.prefix_subs().len() && (#[trigger] after.prefix_subs()[at])
                == before.prefix_subs()[i],
        0 <= i < before.prefix_subs().len() && before.prefix_subs()[i].wants(ns, key) && prefixes[i]
            ==> exists|at: int|
            0 <= at < after.prefix_subs().len() && (#[trigger] after.prefix_subs()[at]).sub.id
                == before.prefix_subs()[i].sub.id && after.prefix_subs()[at].sub.sent
                == before.prefix_subs()[i].sub.sent.push(event),
        0 <= i < after.key_subs(ns, key).len() ==> after.key_subs(ns, key)[i].sent.len() > 0
            && after.key_subs(ns, key)[i].sent.last() == event,
{
    let subs = before.key_subs(ns, key);
    let told = all_told(subs, event);
    if 0 <= i < subs.len() && keys[i] {
        let at = lemma_kept_has(told, keys, i);
        assert(after.key_subs(ns, key)[at] == told[i]);
        assert(told[i] == subs[i].told(event));
    }
    let all = before.prefix_subs();
    let heard = all_heard(all, ns, key, event);
    if 0 <= i < all.len() && prefixes[i] {
        let at = lemma_kept_has(heard, prefixes, i);
        assert(after.prefix_subs()[at] == heard[i]);
        assert(heard[i] == all[i].heard(ns, key, event));
    }
    if 0 <= i < after.key_subs(ns, key).len() {
        let from = lemma_kept_from(told, keys, i);
        assert(told[from] == subs[from].told(event));
    }
}

/// What an event is said to be is what it is.
pub proof fn lemma_event_views(e: WatchEvent)
    ensures
        match e {
            WatchEvent::SetKey { key, value, metadata, expires_at_ms, revision } => e@ matches
                EventView::SetKey { key: k, value: v, metadata: m, expires_at_ms: ms, revision: r }
                && k == key@ && v == value@ && ms == expires_at_ms && r == revision && (m is Some
                <==> metadata is Some) && (metadata matches Some(b) ==> m == Some(b@)),
            WatchEvent::Del { key, revision } => e@ == (EventView::Del { key: key@, revision }),
        },
        e@.rev() == match e {
            WatchEvent::SetKey { revision, .. } => revision,
            WatchEvent::Del { revision, .. } => revision,
        },
{
}

} // verus!
