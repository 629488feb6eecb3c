//! Subscriptions to changes of keys.
use futures_channel::mpsc::{channel, Receiver, Sender};
use vstd::prelude::*;
use vstd::utf8::encode_utf8;

use crate::bytes;
use crate::bytes::has_prefix;
use crate::codec;
use crate::codec::{le64, lemma_le64};
use crate::engine::delivery::lemma_kept_has;
use crate::engine::error::{EngineError, Result};
use crate::engine::log::index::lookup;
use crate::fx::{lemma_total_push, lemma_total_swapped_out, total, FxMap};

verus! {

/// Capacity for per-subscriber watch channels. A slow subscriber that fills
/// its buffer is pruned (same as a disconnected subscriber) rather than
/// allowed to grow without bound.
pub const WATCH_CHANNEL_CAPACITY: usize = 512;

/// Hard cap on the number of live subscriptions (exact keys + prefixes) a
/// single registry will hold. Dead senders are pruned lazily on `notify` and
/// on each `subscribe_*`; this cap bounds the worst case where a client
/// registers many distinct keys faster than pruning reclaims them.
pub const MAX_TOTAL_SUBSCRIPTIONS: usize = 65_536;

/// A change of a key.
#[derive(Debug)]
pub enum WatchEvent {
    SetKey {
        key: Vec<u8>,
        value: Vec<u8>,
        /// JSON text.
        metadata: Option<Vec<u8>>,
        expires_at_ms: Option<u64>,
        revision: u64,
    },
    Del { key: Vec<u8>, revision: u64 },
}

/// What a `WatchEvent` says.
#[verifier::ext_equal]
pub enum EventView {
    SetKey {
        key: Seq<u8>,
        value: Seq<u8>,
        metadata: Option<Seq<u8>>,
        expires_at_ms: Option<u64>,
        revision: u64,
    },
    Del { key: Seq<u8>, revision: u64 },
}

impl EventView {
    /// The revision of the change.
    pub open spec fn rev(self) -> u64 {
        match self {
            EventView::SetKey { revision, .. } => revision,
            EventView::Del { revision, .. } => revision,
        }
    }
}

impl View for WatchEvent {
    type V = EventView;

    open spec fn view(&self) -> EventView {
        match *self {
            WatchEvent::SetKey { key, value, metadata, expires_at_ms, revision } => {
                EventView::SetKey {
                    key: key@,
                    value: value@,
                    metadata: match metadata {
                        Some(m) => Some(m@),
                        None => None,
                    },
                    expires_at_ms,
                    revision,
                }
            },
            WatchEvent::Del { key, revision } => EventView::Del { key: key@, revision },
        }
    }
}

/// The events, each by what it says.
pub open spec fn event_views(v: Seq<WatchEvent>) -> Seq<EventView> {
    v.map_values(|e: WatchEvent| e@)
}

impl WatchEvent {
    /// The revision of the change.
    pub fn revision(&self) -> (r: u64)
        ensures
            r == self@.rev(),
    {
        match self {
            WatchEvent::SetKey { revision, .. } => *revision,
            WatchEvent::Del { revision, .. } => *revision,
        }
    }

    /// An event that says the same.
    pub fn copy(&self) -> (r: WatchEvent)
        ensures
            r@ == self@,
    {
        match self {
            WatchEvent::SetKey { key, value, metadata, expires_at_ms, revision } => {
                let metadata = match metadata {
                    Some(m) => Some(bytes::to_owned(m.as_slice())),
                    None => None,
                };
                WatchEvent::SetKey {
                    key: bytes::to_owned(key.as_slice()),
                    value: bytes::to_owned(value.as_slice()),
                    metadata,
                    expires_at_ms: *expires_at_ms,
                    revision: *revision,
                }
            },
            WatchEvent::Del { key, revision } => WatchEvent::Del {
                key: bytes::to_owned(key.as_slice()),
                revision: *revision,
            },
        }
    }
}

/// Which keys a subscriber or a reader asks for.
pub enum KeyFilter<'a> {
    Exact(&'a [u8]),
    Prefix(&'a [u8]),
}

impl<'a> KeyFilter<'a> {
    /// The filter lets the key through.
    pub open spec fn accepts(&self, key: Seq<u8>) -> bool {
        match *self {
            KeyFilter::Exact(k) => k@ == key,
            KeyFilter::Prefix(p) => has_prefix(key, p@),
        }
    }

    pub fn matches(&self, key: &[u8]) -> (r: bool)
        ensures
            r == self.accepts(key@),
    {
        match self {
            KeyFilter::Exact(k) => bytes::same(k, key),
            KeyFilter::Prefix(p) => bytes::starts_with(key, p),
        }
    }
}

/// The sending end of a bounded channel.
#[verifier::external_type_specification]
#[verifier::external_body]
#[verifier::reject_recursive_types(T)]
pub struct ExSender<T>(futures_channel::mpsc::Sender<T>);

/// The receiving end of a bounded channel.
#[verifier::external_type_specification]
#[verifier::external_body]
#[verifier::reject_recursive_types(T)]
pub struct ExReceiver<T>(futures_channel::mpsc::Receiver<T>);

/// The events that went into a channel through its sending end, in order.
pub uninterp spec fn sent(tx: Sender<WatchEvent>) -> Seq<EventView>;

/// The two are ends of one channel: what goes in through the first comes out at the second.
pub uninterp spec fn ends_of_one(tx: Sender<WatchEvent>, rx: Receiver<WatchEvent>) -> bool;

/// `futures_channel::mpsc::channel`: the two ends of a new channel with this buffer, into which
/// nothing has gone yet. Nothing is claimed of when anything is read at the receiving end: that
/// depends on its holder.
#[verifier::external_body]
fn open_channel(buffer: usize) -> (r: (Sender<WatchEvent>, Receiver<WatchEvent>))
    requires
        buffer < 0x1000_0000,
    ensures
        sent(r.0).len() == 0,
        ends_of_one(r.0, r.1),
{
    channel(buffer)
}

/// `Sender::is_closed`: whether the receiver is gone. Nothing is claimed of the answer: it depends
/// on what the holder of the receiver has done.
#[verifier::external_body]
fn is_closed(tx: &Sender<WatchEvent>) -> (r: bool) {
    tx.is_closed()
}

/// `Sender::try_send`: puts the event into the channel, behind those that went in before it, and
/// says whether it went in. The channel stays the same one. Nothing is claimed of the answer: it depends on whether the receiver is
/// there and how much it has left unread.
#[verifier::external_body]
fn try_send(tx: &mut Sender<WatchEvent>, event: WatchEvent) -> (r: bool)
    ensures
        sent(*final(tx)) == (if r {
            sent(*old(tx)).push(event@)
        } else {
            sent(*old(tx))
        }),
        forall|rx: Receiver<WatchEvent>| #[trigger]
            ends_of_one(*final(tx), rx) == ends_of_one(*old(tx), rx),
{
    tx.try_send(event).is_ok()
}

/// A subscriber of one registry.
pub struct Subscriber {
    tx: Sender<WatchEvent>,
    /// Subscribers are numbered in the order in which they come.
    id: Ghost<int>,
}

/// A subscriber: its number, the events that were handed to it, and which receivers are the other
/// end of its channel.
#[verifier::ext_equal]
pub struct SubView {
    pub id: int,
    pub sent: Seq<EventView>,
    pub ends: spec_fn(Receiver<WatchEvent>) -> bool,
}

impl SubView {
    /// A subscriber to which nothing was handed yet, and what will be comes out at `rx`.
    pub open spec fn opened(self, id: int, rx: Receiver<WatchEvent>) -> bool {
        self.id == id && self.sent.len() == 0 && (self.ends)(rx)
    }

    /// The subscriber with one event more.
    pub open spec fn told(self, event: EventView) -> SubView {
        SubView { sent: self.sent.push(event), ..self }
    }
}

/// The subscribers, those whose flag is set with one event more.
pub open spec fn told_where(subs: Seq<SubView>, flags: Seq<bool>, event: EventView) -> Seq<SubView> {
    Seq::new(
        subs.len(),
        |i: int|
            if flags[i] {
                subs[i].told(event)
            } else {
                subs[i]
            },
    )
}

/// The flags of the others.
pub open spec fn others(flags: Seq<bool>) -> Seq<bool> {
    flags.map_values(|b: bool| !b)
}

/// The subscribers, each with one event more.
pub open spec fn all_told(subs: Seq<SubView>, event: EventView) -> Seq<SubView> {
    subs.map_values(|s: SubView| s.told(event))
}

impl Subscriber {
    pub closed spec fn view(&self) -> SubView {
        SubView {
            id: self.id@,
            sent: sent(self.tx),
            ends: |rx: Receiver<WatchEvent>| ends_of_one(self.tx, rx),
        }
    }
}

/// The subscribers, each by what was handed to it.
pub open spec fn sub_views(v: Seq<Subscriber>) -> Seq<SubView> {
    v.map_values(|s: Subscriber| s@)
}

/// Of the items of `s`, those whose flag in `keep` is set, in order.
pub open spec fn kept<T>(s: Seq<T>, keep: Seq<bool>) -> Seq<T>
    decreases s.len(),
{
    if s.len() == 0 {
        seq![]
    } else if keep[s.len() - 1] {
        kept(s.drop_last(), keep).push(s.last())
    } else {
        kept(s.drop_last(), keep)
    }
}

/// `after` holds some of the items of `before`, in their order: one outcome for each says which.
pub open spec fn thinned<T>(before: Seq<T>, after: Seq<T>) -> bool {
    exists|keep: Seq<bool>| keep.len() == before.len() && after == #[trigger] kept(before, keep)
}

proof fn lemma_kept_prefix<T>(s: Seq<T>, a: Seq<bool>, b: Seq<bool>)
    requires
        s.len() <= a.len(),
        s.len() <= b.len(),
        forall|i: int| 0 <= i < s.len() ==> a[i] == b[i],
    ensures
        kept(s, a) == kept(s, b),
    decreases s.len(),
{
    if s.len() > 0 {
        lemma_kept_prefix(s.drop_last(), a, b);
    }
}

/// No more items are kept than there were.
pub proof fn lemma_kept_len<T>(s: Seq<T>, keep: Seq<bool>)
    ensures
        kept(s, keep).len() <= s.len(),
    decreases s.len(),
{
    if s.len() > 0 {
        lemma_kept_len(s.drop_last(), keep);
    }
}

/// All items may be kept.
pub proof fn lemma_thinned_same<T>(s: Seq<T>)
    ensures
        thinned(s, s),
{
    let keep = Seq::new(s.len(), |i: int| true);
    lemma_kept_all(s, keep);
}

proof fn lemma_kept_all<T>(s: Seq<T>, keep: Seq<bool>)
    requires
        keep.len() >= s.len(),
        forall|i: int| 0 <= i < s.len() ==> keep[i],
    ensures
        kept(s, keep) == s,
    decreases s.len(),
{
    if s.len() > 0 {
        lemma_kept_all(s.drop_last(), keep);
        assert(s =~= s.drop_last().push(s.last()));
    } else {
        assert(s =~= seq![]);
    }
}

/// Two rounds of dropping items are one.
proof fn lemma_kept_twice<T>(s: Seq<T>, a: Seq<bool>, b: Seq<bool>) -> (c: Seq<bool>)
    requires
        a.len() == s.len(),
        b.len() == kept(s, a).len(),
    ensures
        c.len() == s.len(),
        kept(s, c) == kept(kept(s, a), b),
    decreases s.len(),
{
    if s.len() == 0 {
        seq![]
    } else {
        let head = s.drop_last();
        lemma_kept_prefix(head, a, a.drop_last());
        if a.last() {
            let once = kept(head, a);
            let c = lemma_kept_twice(head, a.drop_last(), b.drop_last());
            let r = c.push(b.last());
            lemma_kept_prefix(head, c, r);
            assert(once.push(s.last()).drop_last() =~= once);
            lemma_kept_prefix(once, b, b.drop_last());
            r
        } else {
            let c = lemma_kept_twice(head, a.drop_last(), b);
            let r = c.push(false);
            lemma_kept_prefix(head, c, r);
            r
        }
    }
}

/// Two rounds of dropping items are one.
pub proof fn lemma_thinned_twice<T>(s: Seq<T>, t: Seq<T>, u: Seq<T>)
    requires
        thinned(s, t),
        thinned(t, u),
    ensures
        thinned(s, u),
{
    let a = choose|keep: Seq<bool>| keep.len() == s.len() && t == #[trigger] kept(s, keep);
    let b = choose|keep: Seq<bool>| keep.len() == t.len() && u == #[trigger] kept(t, keep);
    let c = lemma_kept_twice(s, a, b);
}

proof fn lemma_kept_map<T, U>(s: Seq<T>, f: spec_fn(T) -> U, keep: Seq<bool>)
    ensures
        kept(s.map_values(f), keep) == kept(s, keep).map_values(f),
    decreases s.len(),
{
    if s.len() > 0 {
        lemma_kept_map(s.drop_last(), f, keep);
        assert(s.map_values(f).drop_last() =~= s.drop_last().map_values(f));
    }
    assert(kept(s.map_values(f), keep) =~= kept(s, keep).map_values(f));
}

/// Only the items whose flag is set matter.
proof fn lemma_kept_same<T>(s: Seq<T>, t: Seq<T>, keep: Seq<bool>)
    requires
        s.len() == t.len(),
        forall|i: int| 0 <= i < s.len() && keep[i] ==> s[i] == t[i],
    ensures
        kept(s, keep) == kept(t, keep),
    decreases s.len(),
{
    if s.len() > 0 {
        lemma_kept_same(s.drop_last(), t.drop_last(), keep);
    }
}

/// The items in reverse order.
fn reversed<T>(items: Vec<T>) -> (r: Vec<T>)
    ensures
        r@ == items@.reverse(),
{
    let mut items = items;
    let ghost all = items@;
    let mut out: Vec<T> = Vec::new();
    while items.len() > 0
        invariant
            items@.len() + out@.len() == all.len(),
            forall|j: int| 0 <= j < items@.len() ==> items@[j] == all[j],
            forall|j: int| 0 <= j < out@.len() ==> out@[j] == all[all.len() - 1 - j],
        decreases items@.len(),
    {
        if let Some(x) = items.pop() {
            out.push(x);
        }
    }
    assert(out@ =~= all.reverse());
    out
}

/// Of the items, those whose flag is set, in order.
fn select<T>(items: Vec<T>, keep: &Vec<bool>) -> (r: Vec<T>)
    requires
        keep@.len() == items@.len(),
    ensures
        r@ == kept(items@, keep@),
        r@.len() <= items@.len(),
{
    let ghost all = items@;
    let n: usize = items.len();
    let mut rest = reversed(items);
    let mut out: Vec<T> = Vec::new();
    let mut i: usize = 0;
    assert(all.take(0) =~= seq![]);
    while i < n
        invariant
            i <= n,
            n == all.len(),
            n == keep@.len(),
            rest@.len() == n - i,
            forall|j: int| 0 <= j < n - i ==> #[trigger] rest@[j] == all[n - 1 - j],
            out@ == kept(all.take(i as int), keep@),
            out@.len() <= i,
        decreases n - i,
    {
        assert(all.take(i + 1).drop_last() =~= all.take(i as int));
        match rest.pop() {
            Some(x) => {
                assert(x == all[i as int]);
                if keep[i] {
                    out.push(x);
                }
            },
            None => {},
        }
        i = i + 1;
    }
    assert(all.take(n as int) =~= all);
    out
}

/// Of the subscribers, those whose flag is set, in order, each as it was.
pub fn keep_marked(subs: Vec<Subscriber>, keep: &Vec<bool>) -> (r: Vec<Subscriber>)
    requires
        keep@.len() == subs@.len(),
    ensures
        sub_views(r@) == kept(sub_views(subs@), keep@),
        r@ == kept(subs@, keep@),
        r@.len() <= subs@.len(),
{
    proof {
        lemma_kept_map(subs@, |s: Subscriber| s@, keep@);
    }
    select(subs, keep)
}

/// Hands something to someone.
fn handed<S, E, F: Fn(S, E) -> bool>(hand: F, to: S, what: E) -> (r: bool)
    requires
        call_requires(hand, (to, what)),
    ensures
        call_ensures(hand, (to, what), r),
{
    hand(to, what)
}

/// The channel may say of the event that it went in, or that it did not.
pub closed spec fn says_taken(s: Subscriber, event: EventView, taken: bool) -> bool {
    exists|tx: &mut Sender<WatchEvent>, e: WatchEvent|
        *tx == s.tx && e@ == event && #[trigger] call_ensures(try_send, (tx, e), taken)
}

/// Hands an event to each subscriber in turn. The flags say to which it could be handed: those,
/// and no others, have one event more.
pub fn send_all(subs: &mut Vec<Subscriber>, event: &WatchEvent) -> (r: Vec<bool>)
    ensures
        r@.len() == old(subs)@.len(),
        sub_views(final(subs)@) == told_where(sub_views(old(subs)@), r@, event@),
        forall|i: int|
            0 <= i < r@.len() ==> says_taken(old(subs)@[i], event@, #[trigger] r@[i]),
{
    let mut flags: Vec<bool> = Vec::new();
    let mut i: usize = 0;
    while i < subs.len()
        invariant
            i <= subs@.len(),
            subs@.len() == old(subs)@.len(),
            flags@.len() == i,
            forall|j: int|
                0 <= j < i ==> (#[trigger] subs@[j])@ == (if flags@[j] {
                    old(subs)@[j]@.told(event@)
                } else {
                    old(subs)@[j]@
                }),
            forall|j: int| i <= j < subs@.len() ==> subs@[j] == old(subs)@[j],
            forall|j: int|
                0 <= j < i ==> says_taken(old(subs)@[j], event@, #[trigger] flags@[j]),
        decreases subs@.len() - i,
    {
        let s = &mut subs[i];
        let e = event.copy();
        let ok = handed(try_send, &mut s.tx, e);
        assert(says_taken(old(subs)@[i as int], event@, ok));
        flags.push(ok);
        assert(subs@[i as int]@.ends =~= old(subs)@[i as int]@.ends);
        assert(subs@[i as int]@ =~= (if ok {
            old(subs)@[i as int]@.told(event@)
        } else {
            old(subs)@[i as int]@
        }));
        i = i + 1;
    }
    assert(sub_views(subs@) =~= told_where(sub_views(old(subs)@), flags@, event@));
    flags
}

/// Asks a channel whether its receiver is gone.
fn asked<F: Fn(&Sender<WatchEvent>) -> bool>(question: F, tx: &Sender<WatchEvent>) -> (r: bool)
    requires
        call_requires(question, (tx,)),
    ensures
        call_ensures(question, (tx,), r),
{
    question(tx)
}

/// The channel may say of the subscriber's receiver that it is gone, or that it is not.
pub closed spec fn says_gone(s: Subscriber, gone: bool) -> bool {
    call_ensures(is_closed, (&s.tx,), gone)
}

/// Of each subscriber, whether its receiver is there, as its channel says.
fn alive(subs: &Vec<Subscriber>) -> (r: Vec<bool>)
    ensures
        r@.len() == subs@.len(),
        forall|i: int| 0 <= i < r@.len() ==> says_gone(subs@[i], !(#[trigger] r@[i])),
{
    let mut flags: Vec<bool> = Vec::new();
    let mut i: usize = 0;
    while i < subs.len()
        invariant
            i <= subs@.len(),
            flags@.len() == i,
            forall|j: int| 0 <= j < i ==> says_gone(subs@[j], !(#[trigger] flags@[j])),
        decreases subs@.len() - i,
    {
        let gone = asked(is_closed, &subs[i].tx);
        flags.push(!gone);
        i = i + 1;
    }
    flags
}

/// Each of the subscribers is still there, or its channel said that its receiver is gone.
spec fn spared(before: Seq<Subscriber>, after: Seq<Subscriber>) -> bool {
    forall|i: int|
        0 <= i < before.len() ==> after.contains(#[trigger] before[i]) || says_gone(before[i], true)
}

/// Each of the prefix subscribers is still there, or its channel said that its receiver is gone.
spec fn spared_prefixes(before: Seq<PrefixSubscriber>, after: Seq<PrefixSubscriber>) -> bool {
    forall|i: int|
        0 <= i < before.len() ==> after.contains(#[trigger] before[i]) || says_gone(
            before[i].sub,
            true,
        )
}

/// What a map of lists holds under a key, nothing where it has no such key.
spec fn held(m: Map<Seq<u8>, Vec<Subscriber>>, q: Seq<u8>) -> Seq<Subscriber> {
    if m.dom().contains(q) {
        m[q]@
    } else {
        seq![]
    }
}

proof fn lemma_spared_same(s: Seq<Subscriber>)
    ensures
        spared(s, s),
{
    assert forall|i: int| 0 <= i < s.len() implies s.contains(#[trigger] s[i]) by {}
}

proof fn lemma_spared_prefixes_same(s: Seq<PrefixSubscriber>)
    ensures
        spared_prefixes(s, s),
{
    assert forall|i: int| 0 <= i < s.len() implies s.contains(#[trigger] s[i]) by {}
}

/// Drops the subscribers whose receiver is gone.
fn prune(subs: Vec<Subscriber>) -> (r: Vec<Subscriber>)
    ensures
        thinned(sub_views(subs@), sub_views(r@)),
        r@.len() <= subs@.len(),
        exists|keep: Seq<bool>|
            keep.len() == subs@.len() && sub_views(r@) == #[trigger] kept(sub_views(subs@), keep)
                && forall|i: int|
                0 <= i < keep.len() ==> says_gone(subs@[i], !(#[trigger] keep[i])),
        spared(subs@, r@),
{
    let flags = alive(&subs);
    proof {
        assert forall|i: int| 0 <= i < subs@.len() implies kept(subs@, flags@).contains(
            #[trigger] subs@[i],
        ) || says_gone(subs@[i], true) by {
            if flags@[i] {
                let at = lemma_kept_has(subs@, flags@, i);
                assert(kept(subs@, flags@)[at] == subs@[i]);
            } else {
                assert(says_gone(subs@[i], !flags@[i]));
            }
        }
    }
    keep_marked(subs, &flags)
}

/// A subscriber to the keys of a namespace that begin with a prefix.
pub struct PrefixSubscriber {
    ns: Vec<u8>,
    prefix: Vec<u8>,
    sub: Subscriber,
}

/// A prefix subscriber: the namespace and the prefix that it asks for, and what was handed to it.
#[verifier::ext_equal]
pub struct PrefixView {
    pub ns: Seq<u8>,
    pub prefix: Seq<u8>,
    pub sub: SubView,
}

impl PrefixView {
    /// The subscriber asks for this key.
    pub open spec fn wants(self, ns: Seq<u8>, key: Seq<u8>) -> bool {
        self.ns == ns && has_prefix(key, self.prefix)
    }

    /// The subscriber after an event on a key: with one event more if it asks for the key.
    pub open spec fn heard(self, ns: Seq<u8>, key: Seq<u8>, event: EventView) -> PrefixView {
        if self.wants(ns, key) {
            PrefixView { sub: self.sub.told(event), ..self }
        } else {
            self
        }
    }
}

/// The prefix subscribers after an event on a key, those whose flag is not set as they were.
pub open spec fn heard_where(
    subs: Seq<PrefixView>,
    flags: Seq<bool>,
    ns: Seq<u8>,
    key: Seq<u8>,
    event: EventView,
) -> Seq<PrefixView> {
    Seq::new(
        subs.len(),
        |i: int|
            if flags[i] {
                subs[i].heard(ns, key, event)
            } else {
                subs[i]
            },
    )
}

/// The prefix subscribers after an event on a key.
pub open spec fn all_heard(subs: Seq<PrefixView>, ns: Seq<u8>, key: Seq<u8>, event: EventView) -> Seq<
    PrefixView,
> {
    subs.map_values(|s: PrefixView| s.heard(ns, key, event))
}

impl PrefixSubscriber {
    pub closed spec fn view(&self) -> PrefixView {
        PrefixView { ns: self.ns@, prefix: self.prefix@, sub: self.sub@ }
    }

    /// The subscriber's channel may say of the event that it went in, or that it did not.
    pub closed spec fn says_taken(&self, event: EventView, taken: bool) -> bool {
        says_taken(self.sub, event, taken)
    }
}

/// The subscribers behind the prefix subscribers.
pub open spec fn subs_of(v: Seq<PrefixView>) -> Seq<SubView> {
    v.map_values(|p: PrefixView| p.sub)
}

/// The prefix subscribers, each by what it asks for.
pub open spec fn prefix_views(v: Seq<PrefixSubscriber>) -> Seq<PrefixView> {
    v.map_values(|s: PrefixSubscriber| s@)
}

/// Of the prefix subscribers, those whose flag is set, in order, each as it was.
pub fn keep_marked_prefixes(subs: Vec<PrefixSubscriber>, keep: &Vec<bool>) -> (r: Vec<
    PrefixSubscriber,
>)
    requires
        keep@.len() == subs@.len(),
    ensures
        prefix_views(r@) == kept(prefix_views(subs@), keep@),
        r@ == kept(subs@, keep@),
        r@.len() <= subs@.len(),
{
    proof {
        lemma_kept_map(subs@, |s: PrefixSubscriber| s@, keep@);
    }
    select(subs, keep)
}

/// Hands an event on a key to each prefix subscriber that wants it, in turn. The flag of one to
/// which it could not be handed is not set, and that one is as it was; the flag of one that does
/// not want it is set.
pub fn send_prefixes(
    subs: &mut Vec<PrefixSubscriber>,
    ns: &str,
    key: &[u8],
    event: &WatchEvent,
) -> (r: Vec<bool>)
    ensures
        r@.len() == old(subs)@.len(),
        prefix_views(final(subs)@) == heard_where(
            prefix_views(old(subs)@),
            r@,
            encode_utf8(ns@),
            key@,
            event@,
        ),
        forall|i: int|
            0 <= i < r@.len() && !(#[trigger] old(subs)@[i])@.wants(encode_utf8(ns@), key@)
                ==> r@[i],
        forall|i: int|
            0 <= i < r@.len() && old(subs)@[i]@.wants(encode_utf8(ns@), key@)
                ==> old(subs)@[i].says_taken(event@, #[trigger] r@[i]),
{
    let mut flags: Vec<bool> = Vec::new();
    let mut i: usize = 0;
    while i < subs.len()
        invariant
            i <= subs@.len(),
            subs@.len() == old(subs)@.len(),
            flags@.len() == i,
            forall|j: int|
                0 <= j < i ==> (#[trigger] subs@[j])@ == (if flags@[j] {
                    old(subs)@[j]@.heard(encode_utf8(ns@), key@, event@)
                } else {
                    old(subs)@[j]@
                }),
            forall|j: int| i <= j < subs@.len() ==> subs@[j] == old(subs)@[j],
            forall|j: int|
                0 <= j < i && !(#[trigger] old(subs)@[j])@.wants(encode_utf8(ns@), key@)
                    ==> flags@[j],
            forall|j: int|
                0 <= j < i && old(subs)@[j]@.wants(encode_utf8(ns@), key@)
                    ==> old(subs)@[j].says_taken(event@, #[trigger] flags@[j]),
        decreases subs@.len() - i,
    {
        let wanted = bytes::same(subs[i].ns.as_slice(), ns.as_bytes()) && bytes::starts_with(
            key,
            subs[i].prefix.as_slice(),
        );
        let ok = if wanted {
            let s = &mut subs[i];
            let e = event.copy();
            let taken = handed(try_send, &mut s.sub.tx, e);
            assert(old(subs)@[i as int].says_taken(event@, taken));
            taken
        } else {
            true
        };
        flags.push(ok);
        assert(subs@[i as int]@.sub.ends =~= old(subs)@[i as int]@.sub.ends);
        assert(subs@[i as int]@ =~= (if ok {
            old(subs)@[i as int]@.heard(encode_utf8(ns@), key@, event@)
        } else {
            old(subs)@[i as int]@
        }));
        i = i + 1;
    }
    assert(prefix_views(subs@) =~= heard_where(
        prefix_views(old(subs)@),
        flags@,
        encode_utf8(ns@),
        key@,
        event@,
    ));
    flags
}

/// Of each prefix subscriber, whether its receiver is there, as its channel says.
fn alive_prefixes(subs: &Vec<PrefixSubscriber>) -> (r: Vec<bool>)
    ensures
        r@.len() == subs@.len(),
        forall|i: int| 0 <= i < r@.len() ==> says_gone(subs@[i].sub, !(#[trigger] r@[i])),
{
    let mut flags: Vec<bool> = Vec::new();
    let mut i: usize = 0;
    while i < subs.len()
        invariant
            i <= subs@.len(),
            flags@.len() == i,
            forall|j: int| 0 <= j < i ==> says_gone(subs@[j].sub, !(#[trigger] flags@[j])),
        decreases subs@.len() - i,
    {
        let gone = asked(is_closed, &subs[i].sub.tx);
        flags.push(!gone);
        i = i + 1;
    }
    flags
}

/// The namespace and the key as one byte string.
pub open spec fn pair_key(ns: Seq<u8>, key: Seq<u8>) -> Seq<u8> {
    le64(ns.len() as u64) + ns + key
}

/// Different pairs give different byte strings.
pub proof fn lemma_pair_key(ns: Seq<u8>, key: Seq<u8>, ns2: Seq<u8>, key2: Seq<u8>)
    requires
        pair_key(ns, key) == pair_key(ns2, key2),
        ns.len() <= u64::MAX,
        ns2.len() <= u64::MAX,
    ensures
        ns == ns2,
        key == key2,
{
    let a = pair_key(ns, key);
    let b = pair_key(ns2, key2);
    lemma_le64(ns.len() as u64);
    lemma_le64(ns2.len() as u64);
    assert(a.take(8) =~= le64(ns.len() as u64));
    assert(b.take(8) =~= le64(ns2.len() as u64));
    let n = ns.len() as int;
    assert(a.subrange(8, 8 + n) =~= ns);
    assert(b.subrange(8, 8 + n) =~= ns2);
    assert(a.skip(8 + n) =~= key);
    assert(b.skip(8 + n) =~= key2);
}

fn make_pair_key(ns: &[u8], key: &[u8]) -> (r: Vec<u8>)
    ensures
        r@ == pair_key(ns@, key@),
{
    let mut out: Vec<u8> = Vec::new();
    codec::put_u64(&mut out, ns.len() as u64);
    bytes::extend(&mut out, ns);
    bytes::extend(&mut out, key);
    assert(out@ =~= pair_key(ns@, key@));
    out
}

/// How many subscribers a list has.
pub open spec fn sub_weight() -> spec_fn(Vec<Subscriber>) -> nat {
    |v: Vec<Subscriber>| v@.len()
}

/// Who is to hear of which key.
pub struct WatchRegistry {
    keys: FxMap<Vec<Subscriber>>,
    prefixes: Vec<PrefixSubscriber>,
    /// How many subscribers `keys` holds.
    key_total: usize,
    next_id: Ghost<int>,
    /// The subscribers that were dropped after an offer, as they were then.
    missed: Ghost<Seq<SubView>>,
}

impl Default for WatchRegistry {
    fn default() -> (r: Self)
        ensures
            r.wf(),
            r.is_vacant(),
    {
        WatchRegistry::new()
    }
}

impl WatchRegistry {
    /// The lists are counted right, and there are no more subscribers than the cap allows.
    pub closed spec fn wf(&self) -> bool {
        &&& self.keys.wf()
        &&& self.key_total == total(self.keys.items(), sub_weight())
        &&& self.key_total + self.prefixes@.len() <= MAX_TOTAL_SUBSCRIPTIONS
    }

    /// The subscribers of each key, by the pair's byte string.
    pub closed spec fn lists(&self) -> Map<Seq<u8>, Seq<SubView>> {
        self.keys@.map_values(|v: Vec<Subscriber>| sub_views(v@))
    }

    /// The subscribers of this key, in the order in which they came.
    pub open spec fn key_subs(&self, ns: Seq<u8>, key: Seq<u8>) -> Seq<SubView> {
        match lookup(self.lists(), pair_key(ns, key)) {
            Some(v) => v,
            None => seq![],
        }
    }

    /// The prefix subscribers, in the order in which they came.
    pub closed spec fn prefix_subs(&self) -> Seq<PrefixView> {
        prefix_views(self.prefixes@)
    }

    /// How many subscribers there are.
    pub closed spec fn total(&self) -> nat {
        (self.key_total + self.prefixes@.len()) as nat
    }

    /// The number that the next subscriber gets.
    pub closed spec fn next_id(&self) -> int {
        self.next_id@
    }

    /// The subscribers that were dropped after an event was offered, as they were when they were
    /// dropped.
    pub closed spec fn missed(&self) -> Seq<SubView> {
        self.missed@
    }

    /// Every subscriber that was there is still there, or its channel said that its receiver is gone.
    pub closed spec fn spares_present(&self, before: &WatchRegistry) -> bool {
        &&& forall|q: Seq<u8>| #[trigger]
            before.keys@.dom().contains(q) ==> spared(before.keys@[q]@, held(self.keys@, q))
        &&& spared_prefixes(before.prefixes@, self.prefixes@)
    }

    /// The flags are what the channels may have said to the event: those of the key's subscribers, and
    /// those of the prefix subscribers that want the key.
    pub closed spec fn channels_said(
        &self,
        ns: Seq<u8>,
        key: Seq<u8>,
        event: EventView,
        keys: Seq<bool>,
        prefixes: Seq<bool>,
    ) -> bool {
        &&& forall|i: int|
            0 <= i < keys.len() ==> says_taken(
                held(self.keys@, pair_key(ns, key))[i],
                event,
                #[trigger] keys[i],
            )
        &&& forall|i: int|
            0 <= i < prefixes.len() && self.prefixes@[i]@.wants(ns, key)
                ==> self.prefixes@[i].says_taken(event, #[trigger] prefixes[i])
    }

    /// The channel of the `i`th subscriber of a key said that its receiver is gone.
    pub closed spec fn key_gone(&self, ns: Seq<u8>, key: Seq<u8>, i: int) -> bool {
        says_gone(held(self.keys@, pair_key(ns, key))[i], true)
    }

    /// The channel of the `i`th prefix subscriber said that its receiver is gone.
    pub closed spec fn prefix_gone(&self, i: int) -> bool {
        says_gone(self.prefixes@[i].sub, true)
    }

    /// A new subscription drives nobody out: whoever was subscribed to a key or to a prefix still is,
    /// with all that it was told, unless its channel said that its receiver is gone.
    pub proof fn lemma_present_stay(
        &self,
        before: &WatchRegistry,
        ns: Seq<u8>,
        key: Seq<u8>,
        i: int,
    )
        requires
            self.spares_present(before),
        ensures
            0 <= i < before.key_subs(ns, key).len() ==> self.key_subs(ns, key).contains(
                before.key_subs(ns, key)[i],
            ) || before.key_gone(ns, key, i),
            0 <= i < before.prefix_subs().len() ==> self.prefix_subs().contains(
                before.prefix_subs()[i],
            ) || before.prefix_gone(i),
    {
        let q = pair_key(ns, key);
        let was = held(before.keys@, q);
        let now = held(self.keys@, q);
        if 0 <= i < before.key_subs(ns, key).len() {
            assert(before.keys@.dom().contains(q));
            assert(spared(was, now));
            assert(before.key_subs(ns, key)[i] == was[i]@);
            if now.contains(was[i]) {
                let j = choose|j: int| 0 <= j < now.len() && now[j] == was[i];
                assert(self.key_subs(ns, key)[j] == now[j]@);
            }
        }
        if 0 <= i < before.prefix_subs().len() {
            let x = before.prefixes@[i];
            assert(self.prefixes@.contains(x) || says_gone(x.sub, true));
            if self.prefixes@.contains(x) {
                let j = choose|j: int| 0 <= j < self.prefixes@.len() && self.prefixes@[j] == x;
                assert(self.prefix_subs()[j] == x@);
            }
        }
    }

    proof fn lemma_spares_twice(&self, mid: &WatchRegistry, before: &WatchRegistry)
        requires
            mid.spares_present(before),
            self.spares_present(mid),
        ensures
            self.spares_present(before),
    {
        assert forall|q: Seq<u8>| #[trigger] before.keys@.dom().contains(q) implies spared(
            before.keys@[q]@,
            held(self.keys@, q),
        ) by {
            let s = before.keys@[q]@;
            let t = held(mid.keys@, q);
            let u = held(self.keys@, q);
            assert forall|i: int| 0 <= i < s.len() implies u.contains(#[trigger] s[i]) || says_gone(
                s[i],
                true,
            ) by {
                if t.contains(s[i]) {
                    let j = choose|j: int| 0 <= j < t.len() && t[j] == s[i];
                    assert(mid.keys@.dom().contains(q));
                    assert(u.contains(t[j]) || says_gone(t[j], true));
                }
            }
        }
        let s = before.prefixes@;
        let t = mid.prefixes@;
        assert forall|i: int| 0 <= i < s.len() implies self.prefixes@.contains(#[trigger] s[i])
            || says_gone(s[i].sub, true) by {
            if t.contains(s[i]) {
                let j = choose|j: int| 0 <= j < t.len() && t[j] == s[i];
                assert(self.prefixes@.contains(t[j]) || says_gone(t[j].sub, true));
            }
        }
    }

    /// The registry behind an event on a key, given who stays, of the subscribers of the key and of
    /// the prefix subscribers: those who stay have the event if they asked for the key, those who
    /// were dropped asked for it and have not got it.
    pub open spec fn informed(
        &self,
        before: &WatchRegistry,
        ns: Seq<u8>,
        key: Seq<u8>,
        event: EventView,
        keys: Seq<bool>,
        prefixes: Seq<bool>,
    ) -> bool {
        &&& keys.len() == before.key_subs(ns, key).len()
        &&& prefixes.len() == before.prefix_subs().len()
        &&& self.key_subs(ns, key) == kept(all_told(before.key_subs(ns, key), event), keys)
        &&& self.prefix_subs() == kept(
            all_heard(before.prefix_subs(), ns, key, event),
            prefixes,
        )
        &&& self.missed() == before.missed() + kept(before.key_subs(ns, key), others(keys))
            + subs_of(kept(before.prefix_subs(), others(prefixes)))
        &&& forall|i: int|
            0 <= i < prefixes.len() && !(#[trigger] before.prefix_subs()[i]).wants(ns, key)
                ==> prefixes[i]
    }

    /// Nobody is subscribed.
    pub open spec fn is_vacant(&self) -> bool {
        &&& self.lists() == Map::<Seq<u8>, Seq<SubView>>::empty()
        &&& self.prefix_subs().len() == 0
        &&& self.missed().len() == 0
        &&& self.total() == 0
    }

    /// Every list holds some of the subscribers that `before` has in it.
    pub open spec fn thinner(&self, before: &WatchRegistry) -> bool {
        &&& forall|k: Seq<u8>| #[trigger]
            self.lists().dom().contains(k) ==> before.lists().dom().contains(k) && thinned(
                before.lists()[k],
                self.lists()[k],
            )
        &&& thinned(before.prefix_subs(), self.prefix_subs())
    }

    pub fn new() -> (r: Self)
        ensures
            r.wf(),
            r.is_vacant(),
    {
        let r = WatchRegistry {
            keys: FxMap::new(),
            prefixes: Vec::new(),
            key_total: 0,
            next_id: Ghost(0),
            missed: Ghost(Seq::empty()),
        };
        assert(r.lists() =~= Map::<Seq<u8>, Seq<SubView>>::empty());
        r
    }

    /// Total live subscriptions across exact keys and prefixes.
    pub fn total_subscriptions(&self) -> (n: usize)
        requires
            self.wf(),
        ensures
            n == self.total(),
            n <= MAX_TOTAL_SUBSCRIPTIONS,
    {
        self.key_total + self.prefixes.len()
    }

    /// Whether anyone is subscribed to exactly this key.
    pub fn has_key(&self, ns: &[u8], key: &[u8]) -> (r: bool)
        requires
            self.wf(),
        ensures
            r == self.lists().dom().contains(pair_key(ns@, key@)),
    {
        let k = make_pair_key(ns, key);
        self.keys.contains(k.as_slice())
    }

    /// How many prefix subscribers there are.
    pub fn prefix_count(&self) -> (n: usize)
        ensures
            n == self.prefix_subs().len(),
    {
        self.prefixes.len()
    }

    /// The list of this key, without the subscribers whose receiver is gone.
    fn prune_key(&mut self, k: &[u8])
        requires
            old(self).wf(),
        ensures
            final(self).wf(),
            final(self).next_id() == old(self).next_id(),
            final(self).missed() == old(self).missed(),
            final(self).total() <= old(self).total(),
            final(self).prefix_subs() == old(self).prefix_subs(),
            final(self).lists().dom() == old(self).lists().dom(),
            forall|q: Seq<u8>|
                q != k@ && #[trigger] old(self).lists().dom().contains(q) ==> final(self).lists()[q] == old(self).lists()[q],
            old(self).lists().dom().contains(k@) ==> thinned(
                old(self).lists()[k@],
                final(self).lists()[k@],
            ),
            final(self).spares_present(old(self)),
    {
        let ghost w = sub_weight();
        proof {
            self.keys.lemma_items();
            if self.keys@.dom().contains(k@) {
                lemma_total_swapped_out(self.keys.items(), self.keys.place(k@), w);
            }
        }
        match self.keys.remove(k) {
            Some(list) => {
                let n: usize = list.len();
                let left = prune(list);
                let m: usize = left.len();
                let ghost items = self.keys.items();
                let key = bytes::to_owned(k);
                proof {
                    lemma_total_push(items, (key, left), w);
                }
                self.keys.insert(key, left);
                self.key_total = self.key_total - n + m;
                assert(self.lists().dom() =~= old(self).lists().dom());
                proof {
                    assert forall|q: Seq<u8>| #[trigger]
                        old(self).keys@.dom().contains(q) implies spared(
                        old(self).keys@[q]@,
                        held(self.keys@, q),
                    ) by {
                        if q != k@ {
                            lemma_spared_same(old(self).keys@[q]@);
                        }
                    }
                    lemma_spared_prefixes_same(self.prefixes@);
                }
            },
            None => {
                assert(self.keys@ =~= old(self).keys@);
                proof {
                    assert forall|q: Seq<u8>| #[trigger]
                        old(self).keys@.dom().contains(q) implies spared(
                        old(self).keys@[q]@,
                        held(self.keys@, q),
                    ) by {
                        lemma_spared_same(old(self).keys@[q]@);
                    }
                    lemma_spared_prefixes_same(self.prefixes@);
                }
            },
        }
    }

    /// Drops every subscriber whose receiver is gone, and the lists that are left empty.
    fn prune_all(&mut self)
        requires
            old(self).wf(),
        ensures
            final(self).wf(),
            final(self).thinner(old(self)),
            final(self).next_id() == old(self).next_id(),
            final(self).missed() == old(self).missed(),
            final(self).total() <= old(self).total(),
            final(self).spares_present(old(self)),
    {
        let ghost w = sub_weight();
        let ghost was = self.keys@;
        let ghost sum = self.key_total as nat;
        let mut fresh: FxMap<Vec<Subscriber>> = FxMap::new();
        let mut count: usize = 0;
        loop
            invariant
                self.keys.wf(),
                fresh.wf(),
                w == sub_weight(),
                self.prefixes@ == old(self).prefixes@,
                self.next_id == old(self).next_id,
                self.missed == old(self).missed,
                self.key_total == sum,
                count == total(fresh.items(), w),
                count + total(self.keys.items(), w) <= sum,
                forall|q: Seq<u8>| #[trigger]
                    self.keys@.dom().contains(q) ==> was.dom().contains(q) && self.keys@[q]
                        == was[q] && !fresh@.dom().contains(q),
                forall|q: Seq<u8>| #[trigger]
                    fresh@.dom().contains(q) ==> was.dom().contains(q) && thinned(
                        sub_views(was[q]@),
                        sub_views(fresh@[q]@),
                    ),
                forall|q: Seq<u8>| #[trigger]
                    was.dom().contains(q) && !self.keys@.dom().contains(q) ==> spared(
                        was[q]@,
                        held(fresh@, q),
                    ),
            ensures
                forall|q: Seq<u8>| #[trigger]
                    was.dom().contains(q) ==> spared(was[q]@, held(fresh@, q)),
                fresh.wf(),
                self.prefixes@ == old(self).prefixes@,
                self.next_id == old(self).next_id,
                self.missed == old(self).missed,
                count == total(fresh.items(), w),
                count <= sum,
                forall|q: Seq<u8>| #[trigger]
                    fresh@.dom().contains(q) ==> was.dom().contains(q) && thinned(
                        sub_views(was[q]@),
                        sub_views(fresh@[q]@),
                    ),
            decreases self.keys.items().len(),
        {
            match self.keys.pop() {
                Some((k, list)) => {
                    let ghost gone = list@;
                    let left = prune(list);
                    assert(spared(gone, left@));
                    assert(left@.len() == 0 ==> left@ =~= seq![]);
                    if left.len() > 0 {
                        proof {
                            lemma_total_push(fresh.items(), (k, left), w);
                        }
                        count = count + left.len();
                        fresh.insert(k, left);
                    }
                },
                None => {
                    proof {
                        self.keys.lemma_items();
                        assert forall|q: Seq<u8>| !#[trigger] self.keys@.dom().contains(q) by {}
                    }
                    break;
                },
            }
        }
        let ghost fresh_map = fresh@;
        self.keys = fresh;
        self.key_total = count;
        let ghost before = self.prefix_subs();
        self.prune_prefixes();
        assert(self.keys@ == fresh_map);
        proof {
            assert forall|k: Seq<u8>| #[trigger] self.lists().dom().contains(k) implies old(self).lists().dom().contains(k) && thinned(old(self).lists()[k], self.lists()[k]) by {
                assert(self.keys@.dom().contains(k));
            }
        }
    }

    /// Drops the prefix subscribers whose receiver is gone.
    fn prune_prefixes(&mut self)
        ensures
            final(self).keys == old(self).keys,
            final(self).key_total == old(self).key_total,
            final(self).next_id == old(self).next_id,
            final(self).missed == old(self).missed,
            final(self).prefixes@.len() <= old(self).prefixes@.len(),
            thinned(prefix_views(old(self).prefixes@), prefix_views(final(self).prefixes@)),
            spared_prefixes(old(self).prefixes@, final(self).prefixes@),
    {
        let flags = alive_prefixes(&self.prefixes);
        proof {
            let all = self.prefixes@;
            assert forall|i: int| 0 <= i < all.len() implies kept(all, flags@).contains(
                #[trigger] all[i],
            ) || says_gone(all[i].sub, true) by {
                if flags@[i] {
                    let at = lemma_kept_has(all, flags@, i);
                    assert(kept(all, flags@)[at] == all[i]);
                } else {
                    assert(says_gone(all[i].sub, !flags@[i]));
                }
            }
        }
        let mut rest: Vec<PrefixSubscriber> = Vec::new();
        rest.append(&mut self.prefixes);
        assert(rest@ =~= old(self).prefixes@);
        self.prefixes = keep_marked_prefixes(rest, &flags);
    }

    /// Reject a new subscription only if the registry is genuinely full. The
    /// cheap count runs first; only when it trips do we pay for a full prune of
    /// dead senders and re-count, so ordinary subscriber churn (disconnects that
    /// haven't been pruned yet) never produces a false capacity error.
    fn ensure_capacity(&mut self) -> (r: Result<()>)
        requires
            old(self).wf(),
        ensures
            final(self).wf(),
            final(self).thinner(old(self)),
            final(self).next_id() == old(self).next_id(),
            final(self).missed() == old(self).missed(),
            old(self).total() < MAX_TOTAL_SUBSCRIPTIONS ==> r is Ok && *final(self) == *old(self),
            final(self).spares_present(old(self)),
            match r {
                Ok(()) => final(self).total() < MAX_TOTAL_SUBSCRIPTIONS,
                Err(e) => final(self).total() == MAX_TOTAL_SUBSCRIPTIONS && e == (
                EngineError::CapacityExceeded { reason: "watch subscription limit reached" }),
            },
    {
        if self.total_subscriptions() < MAX_TOTAL_SUBSCRIPTIONS {
            proof {
                lemma_thinned_same(self.prefix_subs());
                assert forall|k: Seq<u8>| #[trigger]
                    self.lists().dom().contains(k) implies thinned(
                    old(self).lists()[k],
                    self.lists()[k],
                ) by {
                    lemma_thinned_same(self.lists()[k]);
                }
                assert forall|q: Seq<u8>| #[trigger] old(self).keys@.dom().contains(q) implies spared(
                    old(self).keys@[q]@,
                    held(self.keys@, q),
                ) by {
                    lemma_spared_same(old(self).keys@[q]@);
                }
                lemma_spared_prefixes_same(self.prefixes@);
            }
            return Ok(());
        }
        self.prune_all();
        if self.total_subscriptions() >= MAX_TOTAL_SUBSCRIPTIONS {
            return Err(
                EngineError::CapacityExceeded { reason: "watch subscription limit reached" },
            );
        }
        Ok(())
    }

    /// Subscribes to one key. Subscribers whose receiver is gone may be dropped; the new one
    /// comes last. It is refused only where the registry is full of live subscribers.
    pub fn subscribe_key(&mut self, ns: Vec<u8>, key: Vec<u8>) -> (r: Result<Receiver<WatchEvent>>)
        requires
            old(self).wf(),
        ensures
            final(self).wf(),
            final(self).missed() == old(self).missed(),
            final(self).spares_present(old(self)),
            old(self).total() < MAX_TOTAL_SUBSCRIPTIONS ==> {
                &&& r is Ok
                &&& final(self).prefix_subs() == old(self).prefix_subs()
                &&& forall|q: Seq<u8>|
                    q != pair_key(ns@, key@) ==> #[trigger] lookup(final(self).lists(), q)
                        == lookup(old(self).lists(), q)
            },
            match r {
                Ok(rx) => {
                    &&& final(self).next_id() == old(self).next_id() + 1
                    &&& final(self).key_subs(ns@, key@).len() > 0
                    &&& final(self).key_subs(ns@, key@).last().opened(old(self).next_id(), rx)
                    &&& thinned(
                        old(self).key_subs(ns@, key@),
                        final(self).key_subs(ns@, key@).drop_last(),
                    )
                    &&& forall|q: Seq<u8>|
                        q != pair_key(ns@, key@) && #[trigger] final(self).lists().dom().contains(
                            q,
                        ) ==> old(self).lists().dom().contains(q) && thinned(
                            old(self).lists()[q],
                            final(self).lists()[q],
                        )
                    &&& thinned(old(self).prefix_subs(), final(self).prefix_subs())
                },
                Err(e) => {
                    &&& e == (EngineError::CapacityExceeded {
                        reason: "watch subscription limit reached",
                    })
                    &&& final(self).total() == MAX_TOTAL_SUBSCRIPTIONS
                    &&& final(self).thinner(old(self))
                    &&& final(self).next_id() == old(self).next_id()
                },
            },
    {
        let ghost w = sub_weight();
        let k = make_pair_key(ns.as_slice(), key.as_slice());
        let ghost kk = k@;
        // Prune dead senders for this key before inserting the new one.
        self.prune_key(k.as_slice());
        let ghost mid = *self;
        match self.ensure_capacity() {
            Ok(()) => {
                proof {
                    self.lemma_spares_twice(&mid, old(self));
                }
            },
            Err(e) => {
                proof {
                    self.lemma_spares_twice(&mid, old(self));
                    assert forall|q: Seq<u8>| #[trigger]
                        self.lists().dom().contains(q) implies old(self).lists().dom().contains(q)
                        && thinned(old(self).lists()[q], self.lists()[q]) by {
                        assert(mid.lists().dom().contains(q));
                        if q == kk {
                            lemma_thinned_twice(
                                old(self).lists()[q],
                                mid.lists()[q],
                                self.lists()[q],
                            );
                        }
                    }
                }
                return Err(e);
            },
        }
        let ghost late = *self;
        let (tx, rx) = open_channel(WATCH_CHANNEL_CAPACITY);
        let id = self.next_id;
        self.next_id = Ghost(id@ + 1);
        let sub = Subscriber { tx, id };
        assert(sub@.opened(old(self).next_id(), rx));
        proof {
            self.keys.lemma_items();
            if self.keys@.dom().contains(kk) {
                lemma_total_swapped_out(self.keys.items(), self.keys.place(kk), w);
            }
        }
        let mut list = match self.keys.remove(k.as_slice()) {
            Some(list) => list,
            None => Vec::new(),
        };
        let ghost left = sub_views(list@);
        let n: usize = list.len();
        list.push(sub);
        proof {
            assert(sub_views(list@) =~= left.push(sub@));
            lemma_total_push(self.keys.items(), (k, list), w);
        }
        self.keys.insert(k, list);
        self.key_total = self.key_total + 1;
        proof {
            let was = old(self).key_subs(ns@, key@);
            if late.lists().dom().contains(kk) {
                lemma_thinned_twice(old(self).lists()[kk], mid.lists()[kk], late.lists()[kk]);
                assert(left =~= late.lists()[kk]);
            } else {
                assert(left =~= seq![]);
                lemma_kept_none(was);
            }
            assert(thinned(was, left));
            assert(self.lists()[kk] =~= left.push(sub@));
            assert(self.lists()[kk].drop_last() =~= left);
            assert forall|q: Seq<u8>| #[trigger] late.keys@.dom().contains(q) implies spared(
                late.keys@[q]@,
                held(self.keys@, q),
            ) by {
                let s = late.keys@[q]@;
                if q == kk {
                    assert forall|i: int| 0 <= i < s.len() implies held(self.keys@, q).contains(
                        #[trigger] s[i],
                    ) by {
                        assert(held(self.keys@, q)[i] == s[i]);
                    }
                } else {
                    lemma_spared_same(s);
                }
            }
            lemma_spared_prefixes_same(self.prefixes@);
            self.lemma_spares_twice(&late, old(self));
            assert forall|q: Seq<u8>|
                q != kk && #[trigger] self.lists().dom().contains(q) implies old(self).lists().dom().contains(q) && thinned(old(self).lists()[q], self.lists()[q]) by {
                assert(late.lists().dom().contains(q));
                assert(mid.lists().dom().contains(q));
            }
            if old(self).total() < MAX_TOTAL_SUBSCRIPTIONS {
                assert forall|q: Seq<u8>| q != kk implies #[trigger] lookup(self.lists(), q)
                    == lookup(old(self).lists(), q) by {
                    assert(self.lists().dom().contains(q) == late.lists().dom().contains(q));
                    assert(mid.lists().dom().contains(q) == old(self).lists().dom().contains(q));
                }
            }
        }
        Ok(rx)
    }

    /// Subscribes to the keys of a namespace that begin with `prefix`. Subscribers whose receiver
    /// is gone may be dropped; the new one comes last. It is refused only where the registry is
    /// full of live subscribers.
    pub fn subscribe_prefix(&mut self, ns: Vec<u8>, prefix: Vec<u8>) -> (r: Result<
        Receiver<WatchEvent>,
    >)
        requires
            old(self).wf(),
        ensures
            final(self).wf(),
            final(self).missed() == old(self).missed(),
            final(self).spares_present(old(self)),
            old(self).total() < MAX_TOTAL_SUBSCRIPTIONS ==> r is Ok && final(self).lists() == old(self).lists(),
            match r {
                Ok(rx) => {
                    &&& final(self).next_id() == old(self).next_id() + 1
                    &&& final(self).prefix_subs().len() > 0
                    &&& final(self).prefix_subs().last().ns == ns@
                    &&& final(self).prefix_subs().last().prefix == prefix@
                    &&& final(self).prefix_subs().last().sub.opened(old(self).next_id(), rx)
                    &&& thinned(old(self).prefix_subs(), final(self).prefix_subs().drop_last())
                    &&& forall|q: Seq<u8>| #[trigger]
                        final(self).lists().dom().contains(q) ==> old(self).lists().dom().contains(q) && thinned(
                            old(self).lists()[q],
                            final(self).lists()[q],
                        )
                },
                Err(e) => {
                    &&& e == (EngineError::CapacityExceeded {
                        reason: "watch subscription limit reached",
                    })
                    &&& final(self).total() == MAX_TOTAL_SUBSCRIPTIONS
                    &&& final(self).thinner(old(self))
                    &&& final(self).next_id() == old(self).next_id()
                },
            },
    {
        // Prune dead prefix senders before inserting the new one.
        self.prune_prefixes();
        let ghost mid = *self;
        proof {
            assert forall|q: Seq<u8>| #[trigger] old(self).keys@.dom().contains(q) implies spared(
                old(self).keys@[q]@,
                held(mid.keys@, q),
            ) by {
                lemma_spared_same(old(self).keys@[q]@);
            }
        }
        let result = self.ensure_capacity();
        let ghost late = *self;
        proof {
            self.lemma_spares_twice(&mid, old(self));
            lemma_thinned_twice(old(self).prefix_subs(), mid.prefix_subs(), self.prefix_subs());
        }
        match result {
            Ok(()) => {},
            Err(e) => {
                return Err(e);
            },
        }
        let (tx, rx) = open_channel(WATCH_CHANNEL_CAPACITY);
        let id = self.next_id;
        self.next_id = Ghost(id@ + 1);
        let ghost left = self.prefix_subs();
        let entry = PrefixSubscriber { ns, prefix, sub: Subscriber { tx, id } };
        assert(entry.sub@.opened(old(self).next_id(), rx));
        self.prefixes.push(entry);
        proof {
            assert(self.prefix_subs() =~= left.push(entry@));
            assert(self.prefix_subs().drop_last() =~= left);
            assert forall|q: Seq<u8>| #[trigger] late.keys@.dom().contains(q) implies spared(
                late.keys@[q]@,
                held(self.keys@, q),
            ) by {
                lemma_spared_same(late.keys@[q]@);
            }
            assert forall|i: int| 0 <= i < late.prefixes@.len() implies self.prefixes@.contains(
                #[trigger] late.prefixes@[i],
            ) by {
                assert(self.prefixes@[i] == late.prefixes@[i]);
            }
            self.lemma_spares_twice(&late, old(self));
            assert(thinned(old(self).prefix_subs(), left));
            assert(self.lists() == late.lists());
            assert forall|q: Seq<u8>| #[trigger] self.lists().dom().contains(q) implies old(self).lists().dom().contains(q) && thinned(old(self).lists()[q], self.lists()[q]) by {
                assert(late.lists().dom().contains(q));
                assert(mid.lists() == old(self).lists());
            }
        }
        Ok(rx)
    }

    /// Hands an event to every subscriber of the key and to every prefix subscriber that wants
    /// it, each in turn. One to which it cannot be handed is dropped; the others stay as they are.
    pub fn notify(&mut self, ns: &str, key: &[u8], event: WatchEvent)
        requires
            old(self).wf(),
        ensures
            final(self).wf(),
            final(self).next_id() == old(self).next_id(),
            forall|q: Seq<u8>|
                q != pair_key(encode_utf8(ns@), key@) ==> #[trigger] lookup(final(self).lists(), q)
                    == lookup(old(self).lists(), q),
            final(self).lists().dom().contains(pair_key(encode_utf8(ns@), key@))
                <==> final(self).key_subs(encode_utf8(ns@), key@).len() > 0,
            exists|keys: Seq<bool>, prefixes: Seq<bool>| #[trigger]
                final(self).informed(
                    old(self),
                    encode_utf8(ns@),
                    key@,
                    event@,
                    keys,
                    prefixes,
                ) && old(self).channels_said(encode_utf8(ns@), key@, event@, keys, prefixes),
    {
        let ghost n = encode_utf8(ns@);
        let (keys, prefixes) = self.offer(ns, key, &event);
        let ghost mid = *self;
        self.settle(ns, key, &keys, &prefixes);
        proof {
            lemma_kept_same(
                mid.key_subs(n, key@),
                all_told(old(self).key_subs(n, key@), event@),
                keys@,
            );
            lemma_kept_same(
                mid.prefix_subs(),
                all_heard(old(self).prefix_subs(), n, key@, event@),
                prefixes@,
            );
            lemma_kept_same(
                mid.key_subs(n, key@),
                old(self).key_subs(n, key@),
                others(keys@),
            );
            lemma_kept_same(mid.prefix_subs(), old(self).prefix_subs(), others(prefixes@));
            assert(self.informed(old(self), n, key@, event@, keys@, prefixes@));
        }
    }

    /// Hands an event to every subscriber of the key and to every prefix subscriber that wants
    /// it, each in turn, and drops nobody. The flags say of each subscriber of the key, and of
    /// each prefix subscriber, whether it stays: it does unless the event could not be handed to
    /// it.
    pub fn offer(&mut self, ns: &str, key: &[u8], event: &WatchEvent) -> (r: (Vec<bool>, Vec<bool>))
        requires
            old(self).wf(),
        ensures
            final(self).wf(),
            final(self).next_id() == old(self).next_id(),
            final(self).total() == old(self).total(),
            final(self).missed() == old(self).missed(),
            final(self).lists().dom() == old(self).lists().dom(),
            forall|q: Seq<u8>|
                q != pair_key(encode_utf8(ns@), key@) ==> #[trigger] lookup(final(self).lists(), q)
                    == lookup(old(self).lists(), q),
            r.0@.len() == old(self).key_subs(encode_utf8(ns@), key@).len(),
            final(self).key_subs(encode_utf8(ns@), key@) == told_where(
                old(self).key_subs(encode_utf8(ns@), key@),
                r.0@,
                event@,
            ),
            r.1@.len() == old(self).prefix_subs().len(),
            final(self).prefix_subs() == heard_where(
                old(self).prefix_subs(),
                r.1@,
                encode_utf8(ns@),
                key@,
                event@,
            ),
            forall|i: int|
                0 <= i < r.1@.len() && !(#[trigger] old(self).prefix_subs()[i]).wants(
                    encode_utf8(ns@),
                    key@,
                ) ==> r.1@[i],
            old(self).channels_said(encode_utf8(ns@), key@, event@, r.0@, r.1@),
    {
        let ghost w = sub_weight();
        let k = make_pair_key(ns.as_bytes(), key);
        let ghost kk = k@;
        proof {
            self.keys.lemma_items();
            if self.keys@.dom().contains(kk) {
                lemma_total_swapped_out(self.keys.items(), self.keys.place(kk), w);
            }
        }
        let told = match self.keys.remove(k.as_slice()) {
            Some(list) => {
                let mut list = list;
                let flags = send_all(&mut list, event);
                proof {
                    assert(sub_views(list@).len() == list@.len());
                    lemma_total_push(self.keys.items(), (k, list), w);
                }
                self.keys.insert(k, list);
                flags
            },
            None => {
                assert(self.keys@ =~= old(self).keys@);
                let none: Vec<bool> = Vec::new();
                assert(told_where(seq![], none@, event@) =~= seq![]);
                none
            },
        };
        proof {
            assert(self.lists().dom() =~= old(self).lists().dom());
            assert forall|q: Seq<u8>| q != kk implies #[trigger] lookup(self.lists(), q) == lookup(
                old(self).lists(),
                q,
            ) by {
                assert(self.keys@.dom().contains(q) == old(self).keys@.dom().contains(q));
            }
        }
        let heard = send_prefixes(&mut self.prefixes, ns, key, event);
        assert(prefix_views(self.prefixes@).len() == self.prefixes@.len());
        (told, heard)
    }

    /// Keeps the subscribers of the key, and the prefix subscribers, whose flag is set, and drops
    /// the others. The lists of other keys stay as they are; a key without a subscriber has no
    /// list.
    pub fn settle(&mut self, ns: &str, key: &[u8], keys: &Vec<bool>, prefixes: &Vec<bool>)
        requires
            old(self).wf(),
            keys@.len() == old(self).key_subs(encode_utf8(ns@), key@).len(),
            prefixes@.len() == old(self).prefix_subs().len(),
        ensures
            final(self).wf(),
            final(self).next_id() == old(self).next_id(),
            forall|q: Seq<u8>|
                q != pair_key(encode_utf8(ns@), key@) ==> #[trigger] lookup(final(self).lists(), q)
                    == lookup(old(self).lists(), q),
            final(self).key_subs(encode_utf8(ns@), key@) == kept(
                old(self).key_subs(encode_utf8(ns@), key@),
                keys@,
            ),
            final(self).lists().dom().contains(pair_key(encode_utf8(ns@), key@))
                <==> final(self).key_subs(encode_utf8(ns@), key@).len() > 0,
            final(self).prefix_subs() == kept(old(self).prefix_subs(), prefixes@),
            final(self).missed() == old(self).missed() + kept(
                old(self).key_subs(encode_utf8(ns@), key@),
                others(keys@),
            ) + subs_of(kept(old(self).prefix_subs(), others(prefixes@))),
    {
        let ghost gone = kept(old(self).key_subs(encode_utf8(ns@), key@), others(keys@))
            + subs_of(kept(old(self).prefix_subs(), others(prefixes@)));
        self.missed = Ghost(self.missed@ + gone);
        let ghost w = sub_weight();
        let k = make_pair_key(ns.as_bytes(), key);
        let ghost kk = k@;
        proof {
            self.keys.lemma_items();
            if self.keys@.dom().contains(kk) {
                lemma_total_swapped_out(self.keys.items(), self.keys.place(kk), w);
            }
        }
        match self.keys.remove(k.as_slice()) {
            Some(list) => {
                let n: usize = list.len();
                let left = keep_marked(list, keys);
                let m: usize = left.len();
                self.key_total = self.key_total - n;
                if m > 0 {
                    proof {
                        lemma_total_push(self.keys.items(), (k, left), w);
                    }
                    self.keys.insert(k, left);
                    self.key_total = self.key_total + m;
                } else {
                    assert(sub_views(left@) =~= seq![]);
                }
            },
            None => {
                assert(self.keys@ =~= old(self).keys@);
            },
        }
        proof {
            assert forall|q: Seq<u8>| q != kk implies #[trigger] lookup(self.lists(), q) == lookup(
                old(self).lists(),
                q,
            ) by {
                assert(self.keys@.dom().contains(q) == old(self).keys@.dom().contains(q));
            }
        }
        let mut rest: Vec<PrefixSubscriber> = Vec::new();
        rest.append(&mut self.prefixes);
        assert(rest@ =~= old(self).prefixes@);
        self.prefixes = keep_marked_prefixes(rest, prefixes);
    }
}

proof fn lemma_kept_none<T>(s: Seq<T>)
    ensures
        thinned(s, Seq::<T>::empty()),
{
    let keep = Seq::new(s.len(), |i: int| false);
    lemma_kept_nothing(s, keep);
}

proof fn lemma_kept_nothing<T>(s: Seq<T>, keep: Seq<bool>)
    requires
        keep.len() >= s.len(),
        forall|i: int| 0 <= i < s.len() ==> !keep[i],
    ensures
        kept(s, keep) == Seq::<T>::empty(),
    decreases s.len(),
{
    if s.len() > 0 {
        lemma_kept_nothing(s.drop_last(), keep);
    }
}

} // verus!
