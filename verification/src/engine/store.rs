//! Per-shard KV store: one log per namespace and one L1 cache in front of them.
//!
//! As in the logs, an operation is a few steps; what a step finds to be read or
//! written is done by the caller.
use vstd::prelude::*;
use vstd::string::StringExecFns;
use vstd::utf8::encode_utf8;

use crate::bytes;
use crate::bytes::before;
use crate::codec;
use crate::codec::{le64, u64_at};
use crate::engine::cache::{inserted, meta_view, same_contents, CacheView, EntryView, MemCache};
use crate::engine::error::{EngineError, Result};
use crate::engine::glob::{glob, glob_match};
use crate::engine::log::config::LogConfig;
use crate::engine::log::index::{
    is_page, key_view, key_views, page_size, IndexEntry, IndexView, NsIndex,
};
use crate::engine::log::read::{metadata_from_bytes, metadata_of};
use crate::engine::log::write::{staged, PendingPut, PendingTombstone};
use crate::engine::log::{next_revision, LogView, NamespaceLog};
use crate::engine::types::{Entry, EntryData, ScanPage, SetOptions, TtlResult};
use crate::fx::FxMap;
use crate::text::{
    decimal, lemma_decimal_apart, lemma_decimal_digits, lemma_decimal_len, pow10, push_decimal,
};

verus! {

/// The namespace that database 0 maps to.
pub const DEFAULT_NS: &'static str = "default";

/// The namespace of a database: 0 is the default one, n is `db` and n in decimal.
pub open spec fn database_name(db: u64) -> Seq<char> {
    if db == 0 {
        DEFAULT_NS@
    } else {
        "db"@ + decimal(db as nat)
    }
}

/// Map database index to a namespace name: 0 → "default", n → "db{n}".
pub fn ns_name(db: u64) -> (r: String)
    ensures
        r@ == database_name(db),
{
    if db == 0 {
        String::from_str(DEFAULT_NS)
    } else {
        let mut s = String::from_str("db");
        push_decimal(&mut s, db);
        s
    }
}

/// Different databases have different namespaces, and each of their names is one that a namespace
/// can have.
pub proof fn lemma_database_names(a: u64, b: u64)
    ensures
        valid_name(encode_utf8(database_name(a))),
        database_name(a) == database_name(b) <==> a == b,
        encode_utf8(database_name(a)) == encode_utf8(database_name(b)) <==> a == b,
{
    lemma_database_name(a);
    lemma_database_name(b);
    reveal_strlit("default");
    reveal_strlit("db");
    if a != b {
        let x = database_name(a);
        let y = database_name(b);
        if x == y {
            if a == 0 || b == 0 {
                assert(x[1] != y[1]);
            } else {
                assert(x.skip(2) =~= decimal(a as nat));
                assert(y.skip(2) =~= decimal(b as nat));
                lemma_decimal_apart(a as nat, b as nat);
            }
        }
        vstd::utf8::encode_utf8_decode_utf8(x);
        vstd::utf8::encode_utf8_decode_utf8(y);
    }
}

proof fn lemma_database_name(db: u64)
    ensures
        valid_name(encode_utf8(database_name(db))),
{
    let name = database_name(db);
    reveal_strlit("default");
    reveal_strlit("db");
    reveal_with_fuel(pow10, 21);
    lemma_decimal_digits(db as nat);
    lemma_decimal_len(db as nat, 20);
    assert(vstd::utf8::is_ascii_chars(name));
    vstd::utf8::is_ascii_chars_encode_utf8(name);
    let b = encode_utf8(name);
    assert forall|i: int| 0 <= i < b.len() implies name_byte(#[trigger] b[i]) by {
        assert(b[i] == name[i] as u8);
        if db != 0 && i >= 2 {
            assert(name[i] == decimal(db as nat)[i - 2]);
        }
    }
}

/// A byte that a namespace's name may hold: a letter, a digit, `_` or `-`.
pub open spec fn name_byte(b: u8) -> bool {
    (48 <= b <= 57) || (65 <= b <= 90) || (97 <= b <= 122) || b == 95 || b == 45
}

/// These bytes can be the name of a namespace.
pub open spec fn valid_name(name: Seq<u8>) -> bool {
    0 < name.len() <= 64 && forall|i: int| 0 <= i < name.len() ==> name_byte(#[trigger] name[i])
}

pub fn is_valid_ns_name(name: &str) -> (r: bool)
    ensures
        r == valid_name(encode_utf8(name@)),
{
    let b = name.as_bytes();
    if b.len() == 0 || b.len() > 64 {
        return false;
    }
    let mut i: usize = 0;
    while i < b.len()
        invariant
            b@ == encode_utf8(name@),
            i <= b@.len(),
            forall|j: int| 0 <= j < i ==> name_byte(#[trigger] b@[j]),
        decreases b@.len() - i,
    {
        let c = b[i];
        if !((c >= 48 && c <= 57) || (c >= 65 && c <= 90) || (c >= 97 && c <= 122) || c == 95 || c
            == 45) {
            assert(!name_byte(b@[i as int]));
            return false;
        }
        i = i + 1;
    }
    true
}

/// The key under which the cache keeps a key of a namespace.
pub open spec fn cache_key_of(ns: Seq<u8>, key: Seq<u8>) -> Seq<u8> {
    ns + seq![0u8] + key
}

/// Keys of different namespaces, and different keys of one, are apart in the cache.
pub proof fn lemma_cache_keys_apart(ns: Seq<u8>, key: Seq<u8>, ns2: Seq<u8>, key2: Seq<u8>)
    requires
        valid_name(ns),
        valid_name(ns2),
        cache_key_of(ns, key) == cache_key_of(ns2, key2),
    ensures
        ns == ns2,
        key == key2,
{
    let a = cache_key_of(ns, key);
    let b = cache_key_of(ns2, key2);
    let n = ns.len() as int;
    let m = ns2.len() as int;
    if n < m {
        assert(b[n] == ns2[n]);
        assert(a[n] == 0);
        assert(name_byte(ns2[n]));
    } else if m < n {
        assert(a[m] == ns[m]);
        assert(b[m] == 0);
        assert(name_byte(ns[m]));
    }
    assert(a.take(n) =~= ns);
    assert(b.take(n) =~= ns2);
    assert(a.skip(n + 1) =~= key);
    assert(b.skip(n + 1) =~= key2);
}

/// Makes the key under which the cache keeps a key of a namespace.
pub fn cache_key(ns: &str, key: &[u8]) -> (r: Vec<u8>)
    ensures
        r@ == cache_key_of(encode_utf8(ns@), key@),
{
    let mut ck: Vec<u8> = bytes::to_owned(ns.as_bytes());
    ck.push(0);
    bytes::extend(&mut ck, key);
    assert(ck@ =~= cache_key_of(encode_utf8(ns@), key@));
    ck
}

/// In how many milliseconds a key expires.
pub open spec fn expires_in(expires_at_ms: Option<u64>, now: u64) -> Option<u64> {
    match expires_at_ms {
        Some(ms) => Some(
            if ms > now {
                (ms - now) as u64
            } else {
                0
            },
        ),
        None => None,
    }
}

fn remaining(expires_at_ms: Option<u64>, now: u64) -> (r: Option<u64>)
    ensures
        r == expires_in(expires_at_ms, now),
{
    match expires_at_ms {
        Some(ms) => if ms > now {
            Some(ms - now)
        } else {
            Some(0)
        },
        None => None,
    }
}

/// A lifetime in milliseconds as far as 64 bits reach.
pub open spec fn capped_ttl(ttl_ms: u128) -> u64 {
    if ttl_ms <= u64::MAX {
        ttl_ms as u64
    } else {
        u64::MAX
    }
}

/// When a key expires that is given a lifetime at `now`.
pub open spec fn expiry_of_ttl(ttl_ms: Option<u128>, now: u64) -> Option<u64> {
    match ttl_ms {
        Some(ms) => Some((now + capped_ttl(ms)) as u64),
        None => None,
    }
}

/// The store with a put under way in a namespace, given the store before, and the put.
pub open spec fn set_started(
    before: ShardStore,
    ns: Seq<char>,
    key: Seq<u8>,
    value: Seq<u8>,
    expires_at_ms: Option<u64>,
    now: u64,
    p: PendingPut,
    after: ShardStore,
) -> bool {
    let name = encode_utf8(ns);
    &&& staged(
        before.namespaces@[name]@,
        key,
        value,
        expires_at_ms,
        now,
        p,
        after.namespaces@[name]@,
    )
    &&& after.namespaces@ == before.namespaces@.insert(name, after.namespaces@[name])
    &&& after.cache == before.cache
    &&& after.config == before.config
}

/// When a key expires that is given a lifetime now.
pub fn expiry_at(ttl_ms: Option<u128>, now: u64) -> (r: Option<u64>)
    requires
        ttl_ms matches Some(ms) ==> now + capped_ttl(ms) <= u64::MAX,
    ensures
        r == expiry_of_ttl(ttl_ms, now),
{
    match ttl_ms {
        Some(ms) => {
            let capped: u64 = if ms <= u64::MAX as u128 {
                ms as u64
            } else {
                u64::MAX
            };
            Some(now + capped)
        },
        None => None,
    }
}

/// The next step of a read.
pub enum GetStep {
    /// The cache has it.
    Hit(Entry),
    /// The key is not there.
    Absent,
    /// The key's expiry has come: it is to be deleted, and is not there.
    Expired,
    /// The key's record is to be read.
    Read { entry: IndexEntry, expires_at_ms: Option<u64> },
}

/// What a `GetStep` says.
#[verifier::ext_equal]
pub enum StepView {
    Hit(EntryData),
    Absent,
    Expired,
    Read { entry: IndexEntry, expires_at_ms: Option<u64> },
}

impl View for GetStep {
    type V = StepView;

    open spec fn view(&self) -> StepView {
        match *self {
            GetStep::Hit(e) => StepView::Hit(e@),
            GetStep::Absent => StepView::Absent,
            GetStep::Expired => StepView::Expired,
            GetStep::Read { entry, expires_at_ms } => StepView::Read { entry, expires_at_ms },
        }
    }
}

/// What the cache gives as an entry.
pub open spec fn hit_data(e: EntryView, now: u64) -> EntryData {
    EntryData {
        value: e.value,
        expires_in_ms: expires_in(e.expires_at_ms, now),
        metadata: e.metadata,
        revision: e.revision,
    }
}

/// The first step of a read, and the cache behind it.
pub open spec fn get_step(
    cache: CacheView,
    idx: IndexView,
    ck: Seq<u8>,
    key: Seq<u8>,
    now: u64,
) -> (CacheView, StepView) {
    let (after, hit) = cache.read(ck, now);
    (
        after,
        match hit {
            Some(e) => StepView::Hit(hit_data(e, now)),
            None => if !idx.map.dom().contains(key) {
                StepView::Absent
            } else if idx.expired(key, now) {
                StepView::Expired
            } else {
                StepView::Read { entry: idx.map[key], expires_at_ms: idx.ttl_of(key) }
            },
        },
    )
}

/// The entry that a read gives whose record was read.
pub open spec fn read_data(
    value: Seq<u8>,
    meta: Seq<u8>,
    expires_at_ms: Option<u64>,
    revision: u64,
    now: u64,
) -> EntryData {
    EntryData {
        value,
        expires_in_ms: expires_in(expires_at_ms, now),
        metadata: metadata_of(meta),
        revision,
    }
}

/// What a read answers, given its first step and the record, if one was read: its value and its
/// metadata field.
pub open spec fn answered(
    step: StepView,
    record: Option<(Seq<u8>, Seq<u8>)>,
    now: u64,
) -> Option<EntryData> {
    match (step, record) {
        (StepView::Hit(d), _) => Some(d),
        (StepView::Read { entry, expires_at_ms }, Some((value, meta))) => Some(
            read_data(value, meta, expires_at_ms, entry.tstamp_ms, now),
        ),
        _ => None,
    }
}

/// Of the records that were read, the one for this slot: its value and its metadata field.
pub open spec fn read_for(reads: Seq<(usize, Vec<u8>, Vec<u8>)>, slot: int) -> Option<
    (Seq<u8>, Seq<u8>),
> {
    if exists|j: int| 0 <= j < reads.len() && (#[trigger] reads[j]).0 == slot {
        let j = choose|j: int| 0 <= j < reads.len() && (#[trigger] reads[j]).0 == slot;
        Some((reads[j].1@, reads[j].2@))
    } else {
        None
    }
}

/// What an entry says, if there is one.
pub open spec fn entry_data(e: Option<Entry>) -> Option<EntryData> {
    match e {
        Some(e) => Some(e@),
        None => None,
    }
}

/// Per-shard KV store.
pub struct ShardStore {
    pub config: LogConfig,
    /// The open namespaces, by name.
    pub namespaces: FxMap<NamespaceLog>,
    pub cache: MemCache,
}

/// How long a key has to live, in units of `unit` milliseconds.
pub open spec fn ttl_result(idx: IndexView, key: Seq<u8>, now: u64, unit: u64) -> TtlResult {
    if !idx.map.dom().contains(key) {
        TtlResult::NotFound
    } else {
        match idx.ttl_of(key) {
            None => TtlResult::NoExpiry,
            Some(ms) => if ms <= now {
                TtlResult::NotFound
            } else {
                TtlResult::Remaining(((ms - now) / (unit as int)) as u64)
            },
        }
    }
}

/// How many of the keys are live, each as often as it is named.
pub open spec fn count_live(idx: IndexView, keys: Seq<Vec<u8>>, now: u64) -> nat
    decreases keys.len(),
{
    if keys.len() == 0 {
        0
    } else {
        count_live(idx, keys.drop_last(), now) + (if idx.live(keys.last()@, now) {
            1nat
        } else {
            0nat
        })
    }
}

/// The places of a list at which a live key is named.
pub open spec fn live_places(idx: IndexView, keys: Seq<Vec<u8>>, now: u64) -> Set<int> {
    Set::new(
        |i: int|
            0 <= i < keys.len() && idx.map.dom().contains(keys[i]@) && (idx.ttl.dom().contains(
                keys[i]@,
            ) ==> idx.ttl[keys[i]@] > now),
    )
}

/// Counting keys counts the places of the list at which a key is named that the index has and whose
/// expiry has not come.
pub proof fn lemma_count_live_places(idx: IndexView, keys: Seq<Vec<u8>>, now: u64)
    ensures
        live_places(idx, keys, now).finite(),
        count_live(idx, keys, now) == live_places(idx, keys, now).len(),
        count_live(idx, keys, now) <= keys.len(),
        (forall|i: int|
            0 <= i < keys.len() ==> idx.map.dom().contains((#[trigger] keys[i])@) && (
            idx.ttl.dom().contains(keys[i]@) ==> idx.ttl[keys[i]@] > now)) ==> count_live(
            idx,
            keys,
            now,
        ) == keys.len(),
    decreases keys.len(),
{
    let places = live_places(idx, keys, now);
    if keys.len() == 0 {
        assert(places =~= Set::empty());
    } else {
        let rest = keys.drop_last();
        lemma_count_live_places(idx, rest, now);
        let before_last = live_places(idx, rest, now);
        let last = keys.len() - 1;
        assert(forall|i: int| 0 <= i < last ==> rest[i] == #[trigger] keys[i]);
        if idx.map.dom().contains(keys[last]@) && (idx.ttl.dom().contains(keys[last]@)
            ==> idx.ttl[keys[last]@] > now) {
            assert(places =~= before_last.insert(last));
        } else {
            assert(places =~= before_last);
        }
    }
}

/// Counting two lists one behind the other gives the sum of their counts.
pub proof fn lemma_count_live_adds(idx: IndexView, a: Seq<Vec<u8>>, b: Seq<Vec<u8>>, now: u64)
    ensures
        count_live(idx, a + b, now) == count_live(idx, a, now) + count_live(idx, b, now),
    decreases b.len(),
{
    if b.len() == 0 {
        assert(a + b =~= a);
    } else {
        lemma_count_live_adds(idx, a, b.drop_last(), now);
        assert((a + b).drop_last() =~= a + b.drop_last());
    }
}

/// The cache behind the first steps of the reads of several keys.
pub open spec fn cache_after_gets(
    cache: CacheView,
    ns: Seq<u8>,
    keys: Seq<Vec<u8>>,
    now: u64,
) -> CacheView
    decreases keys.len(),
{
    if keys.len() == 0 {
        cache
    } else {
        cache_after_gets(cache, ns, keys.drop_last(), now).read(
            cache_key_of(ns, keys.last()@),
            now,
        ).0
    }
}

/// A read finds under each key what it would find in the other cache.
pub open spec fn same_reads(a: CacheView, b: CacheView, now: u64) -> bool {
    forall|k: Seq<u8>|
        match ((#[trigger] a.read(k, now)).1, b.read(k, now).1) {
            (Some(x), Some(y)) => same_contents(x, y),
            (None, None) => true,
            _ => false,
        }
}

/// Reads change nothing that a later read would find.
pub proof fn lemma_gets_change_no_read(cache: CacheView, ns: Seq<u8>, keys: Seq<Vec<u8>>, now: u64)
    ensures
        same_reads(cache_after_gets(cache, ns, keys, now), cache, now),
    decreases keys.len(),
{
    if keys.len() > 0 {
        lemma_gets_change_no_read(cache, ns, keys.drop_last(), now);
        let was = cache_after_gets(cache, ns, keys.drop_last(), now);
        let ck = cache_key_of(ns, keys.last()@);
        let after = was.read(ck, now).0;
        assert forall|k: Seq<u8>|
            (match ((#[trigger] after.read(k, now)).1, cache.read(k, now).1) {
                (Some(x), Some(y)) => same_contents(x, y),
                (None, None) => true,
                _ => false,
            }) by {
            assert(match (was.read(k, now).1, cache.read(k, now).1) {
                (Some(x), Some(y)) => same_contents(x, y),
                (None, None) => true,
                _ => false,
            });
        }
    }
}

/// A bulk read gives for each key what a read of that key alone would give: it takes the same
/// step, so it asks for the same record, and answers alike whatever record is read.
pub proof fn lemma_mget_gives_what_get_gives(
    cache: CacheView,
    idx: IndexView,
    ns: Seq<u8>,
    keys: Seq<Vec<u8>>,
    i: int,
    record: Option<(Seq<u8>, Seq<u8>)>,
    now: u64,
)
    requires
        0 <= i < keys.len(),
    ensures
        ({
            let bulk = get_step(
                cache_after_gets(cache, ns, keys.take(i), now),
                idx,
                cache_key_of(ns, keys[i]@),
                keys[i]@,
                now,
            ).1;
            let alone = get_step(cache, idx, cache_key_of(ns, keys[i]@), keys[i]@, now).1;
            bulk == alone && answered(bulk, record, now) == answered(alone, record, now)
        }),
{
    lemma_gets_change_no_read(cache, ns, keys.take(i), now);
    let ck = cache_key_of(ns, keys[i]@);
    let was = cache_after_gets(cache, ns, keys.take(i), now);
    assert(match (was.read(ck, now).1, cache.read(ck, now).1) {
        (Some(x), Some(y)) => same_contents(x, y),
        (None, None) => true,
        _ => false,
    });
}

/// The cache without the keys of an index.
pub open spec fn cache_without_keys(
    cache: CacheView,
    ns: Seq<u8>,
    items: Seq<(Vec<u8>, IndexEntry)>,
) -> CacheView
    decreases items.len(),
{
    if items.len() == 0 {
        cache
    } else {
        cache_without_keys(cache, ns, items.drop_last()).removed(
            cache_key_of(ns, items.last().0@),
        )
    }
}

/// The cache with the pairs of a batch.
pub open spec fn cache_with_pairs(
    cache: CacheView,
    ns: Seq<u8>,
    pairs: Seq<(Vec<u8>, Vec<u8>)>,
    revisions: Seq<u64>,
) -> CacheView
    decreases pairs.len(),
{
    if pairs.len() == 0 {
        cache
    } else {
        inserted(
            cache_with_pairs(cache, ns, pairs.drop_last(), revisions),
            cache_key_of(ns, pairs.last().0@),
            pairs.last().1@,
            None,
            None,
            0,
            revisions[pairs.len() - 1],
        )
    }
}

/// The cache with the entries of records that were read: each is a slot, a value and a metadata
/// field.
pub open spec fn cache_with_reads(
    cache: CacheView,
    ns: Seq<u8>,
    keys: Seq<Vec<u8>>,
    steps: Seq<StepView>,
    reads: Seq<(usize, Vec<u8>, Vec<u8>)>,
) -> CacheView
    decreases reads.len(),
{
    if reads.len() == 0 {
        cache
    } else {
        let head = cache_with_reads(cache, ns, keys, steps, reads.drop_last());
        let (slot, value, meta) = reads.last();
        match steps[slot as int] {
            StepView::Read { entry, expires_at_ms } => inserted(
                head,
                cache_key_of(ns, keys[slot as int]@),
                value@,
                expires_at_ms,
                metadata_of(meta@),
                meta@.len() as usize,
                entry.tstamp_ms,
            ),
            _ => head,
        }
    }
}

impl ShardStore {
    pub open spec fn wf(&self) -> bool {
        &&& self.namespaces.wf()
        &&& self.cache.wf()
        &&& forall|ns: Seq<u8>| #[trigger]
            self.namespaces@.dom().contains(ns) ==> self.namespaces@[ns].wf() && valid_name(ns)
    }

    /// The namespace is open.
    pub open spec fn is_open(&self, ns: Seq<char>) -> bool {
        self.namespaces@.dom().contains(encode_utf8(ns))
    }

    /// The index of an open namespace.
    pub open spec fn index_of(&self, ns: Seq<char>) -> IndexView {
        self.namespaces@[encode_utf8(ns)]@.index
    }

    /// The log of an open namespace can take one write more.
    pub open spec fn log_has_room(&self, ns: Seq<char>) -> bool {
        let log = self.namespaces@[encode_utf8(ns)]@;
        log.last_tstamp < u64::MAX && log.values.has_room()
    }

    /// A cache entry of this size keeps the byte counts within the machine's integers.
    pub open spec fn cache_has_room(
        &self,
        ns: Seq<char>,
        key: Seq<u8>,
        value: Seq<u8>,
        meta: usize,
    ) -> bool {
        self.cache@.has_room(cache_key_of(encode_utf8(ns), key), value, meta)
    }

    /// A store without namespaces.
    pub fn new(memory_bytes: usize) -> (r: ShardStore)
        ensures
            r.wf(),
            r.namespaces@ == Map::<Seq<u8>, NamespaceLog>::empty(),
            r.config.rotate_threshold == 0x4000_0000,
            r.config.fanout == 8,
            r.config.value_sep_threshold == 128 * 1024,
            r.cache@ == CacheView::fresh(memory_bytes),
    {
        ShardStore {
            config: LogConfig::default(),
            namespaces: FxMap::new(),
            cache: MemCache::new(memory_bytes),
        }
    }

    /// Of the directories found on disk, the places of those that are namespaces.
    pub fn open(dirs: &Vec<String>) -> (r: Vec<usize>)
        ensures
            forall|i: int, j: int| 0 <= i < j < r@.len() ==> #[trigger] r@[i] < #[trigger] r@[j],
            forall|i: int|
                0 <= i < r@.len() ==> #[trigger] r@[i] < dirs@.len() && valid_name(
                    encode_utf8(dirs@[r@[i] as int]@),
                ),
            forall|k: int|
                0 <= k < dirs@.len() && valid_name(encode_utf8((#[trigger] dirs@[k])@))
                    ==> r@.contains(k as usize),
    {
        let mut out: Vec<usize> = Vec::new();
        let mut k: usize = 0;
        while k < dirs.len()
            invariant
                k <= dirs@.len(),
                forall|i: int, j: int|
                    0 <= i < j < out@.len() ==> #[trigger] out@[i] < #[trigger] out@[j],
                forall|i: int|
                    0 <= i < out@.len() ==> #[trigger] out@[i] < k && valid_name(
                        encode_utf8(dirs@[out@[i] as int]@),
                    ),
                forall|q: int|
                    0 <= q < k && valid_name(encode_utf8((#[trigger] dirs@[q])@)) ==> out@.contains(
                        q as usize,
                    ),
            decreases dirs@.len() - k,
        {
            let ghost was = out@;
            if is_valid_ns_name(dirs[k].as_str()) {
                out.push(k);
                proof {
                    assert forall|q: int|
                        0 <= q < k + 1 && valid_name(
                            encode_utf8((#[trigger] dirs@[q])@),
                        ) implies out@.contains(q as usize) by {
                        if q < k {
                            assert(was.contains(q as usize));
                            let i = choose|i: int| 0 <= i < was.len() && was[i] == q as usize;
                            assert(out@[i] == q as usize);
                        } else {
                            assert(out@[was.len() as int] == k);
                        }
                    }
                }
            }
            k = k + 1;
        }
        out
    }

    /// Whether a namespace is open; the error where no namespace can have this name. One that is
    /// not open is to be opened and added.
    pub fn ensure_ns(&self, ns: &str) -> (r: Result<bool>)
        requires
            self.wf(),
        ensures
            match r {
                Ok(open) => valid_name(encode_utf8(ns@)) && open == self.is_open(ns@),
                Err(e) => !valid_name(encode_utf8(ns@)) && (e matches EngineError::InvalidNamespace {
                    name,
                } && name@ == ns@),
            },
    {
        if !is_valid_ns_name(ns) {
            return Err(EngineError::InvalidNamespace { name: ns.to_owned() });
        }
        Ok(self.namespaces.contains(ns.as_bytes()))
    }

    /// Adds a namespace that was opened. One that is already there stays: another task was faster.
    pub fn add_ns(&mut self, ns: &str, log: NamespaceLog)
        requires
            old(self).wf(),
            log.wf(),
            valid_name(encode_utf8(ns@)),
        ensures
            final(self).wf(),
            final(self).cache@ == old(self).cache@,
            final(self).config == old(self).config,
            final(self).namespaces@ == (if old(self).is_open(ns@) {
                old(self).namespaces@
            } else {
                old(self).namespaces@.insert(encode_utf8(ns@), log)
            }),
    {
        if !self.namespaces.contains(ns.as_bytes()) {
            self.namespaces.insert(bytes::to_owned(ns.as_bytes()), log);
        }
    }

    /// The log of an open namespace.
    pub fn get_ns(&self, ns: &str) -> (r: Result<&NamespaceLog>)
        requires
            self.wf(),
        ensures
            match r {
                Ok(log) => self.is_open(ns@) && *log == self.namespaces@[encode_utf8(ns@)],
                Err(e) => !self.is_open(ns@) && (e matches EngineError::InvalidNamespace { name }
                    && name@ == ns@),
            },
    {
        match self.namespaces.get(ns.as_bytes()) {
            Some(log) => Ok(log),
            None => Err(EngineError::InvalidNamespace { name: ns.to_owned() }),
        }
    }

    /// The log of an open namespace, for the steps of its operations.
    pub fn log_mut(&mut self, ns: &str) -> (r: Option<&mut NamespaceLog>)
        requires
            old(self).wf(),
        ensures
            match r {
                Some(log) => {
                    &&& old(self).is_open(ns@)
                    &&& *log == old(self).namespaces@[encode_utf8(ns@)]
                    &&& final(log).wf() ==> final(self).wf()
                    &&& final(self).namespaces@ == old(self).namespaces@.insert(
                        encode_utf8(ns@),
                        *final(log),
                    )
                    &&& final(self).cache == old(self).cache
                    &&& final(self).config == old(self).config
                },
                None => !old(self).is_open(ns@) && *final(self) == *old(self),
            },
    {
        self.namespaces.get_mut(ns.as_bytes())
    }

    /// The first step of a read: the cache, then the index.
    pub fn get(&mut self, ns: &str, key: &[u8], now: u64) -> (r: GetStep)
        requires
            old(self).wf(),
            old(self).is_open(ns@),
        ensures
            final(self).wf(),
            final(self).namespaces == old(self).namespaces,
            final(self).config == old(self).config,
            (final(self).cache@, r@) == get_step(
                old(self).cache@,
                old(self).index_of(ns@),
                cache_key_of(encode_utf8(ns@), key@),
                key@,
                now,
            ),
    {
        let ck = cache_key(ns, key);
        if let Some((value, expires_at_ms, metadata, revision)) = self.cache.get(
            ck.as_slice(),
            now,
        ) {
            return GetStep::Hit(
                Entry { value, expires_in_ms: remaining(expires_at_ms, now), metadata, revision },
            );
        }
        match self.namespaces.get(ns.as_bytes()) {
            None => GetStep::Absent,
            Some(log) => match log.index.get(key) {
                None => GetStep::Absent,
                Some(e) => {
                    let entry = *e;
                    if log.index.is_expired(key, now) {
                        GetStep::Expired
                    } else {
                        GetStep::Read { entry, expires_at_ms: log.index.ttl(key) }
                    }
                },
            },
        }
    }

    /// The last step of a read whose record was read: the entry, which the cache now has too.
    pub fn get_done(
        &mut self,
        ns: &str,
        key: &[u8],
        value: Vec<u8>,
        meta: &[u8],
        expires_at_ms: Option<u64>,
        revision: u64,
        now: u64,
    ) -> (r: Entry)
        requires
            old(self).wf(),
            old(self).cache_has_room(ns@, key@, value@, meta@.len() as usize),
        ensures
            final(self).wf(),
            final(self).namespaces == old(self).namespaces,
            final(self).config == old(self).config,
            final(self).cache@ == inserted(
                old(self).cache@,
                cache_key_of(encode_utf8(ns@), key@),
                value@,
                expires_at_ms,
                metadata_of(meta@),
                meta@.len() as usize,
                revision,
            ),
            final(self).cache@.max_bytes == old(self).cache@.max_bytes,
            r@ == read_data(value@, meta@, expires_at_ms, revision, now),
    {
        let metadata = metadata_from_bytes(meta);
        let copy = match &metadata {
            Some(m) => Some(bytes::to_owned(m.as_slice())),
            None => None,
        };
        let kept = bytes::to_owned(value.as_slice());
        let ck = cache_key(ns, key);
        self.cache.insert(ck, kept, expires_at_ms, copy, meta.len(), revision);
        Entry { value, expires_in_ms: remaining(expires_at_ms, now), metadata, revision }
    }

    /// The first steps of a bulk read, one for each key in order: each is the step that a read of
    /// that key alone would take.
    pub fn mget(&mut self, ns: &str, keys: &Vec<Vec<u8>>, now: u64) -> (r: Vec<GetStep>)
        requires
            old(self).wf(),
            old(self).is_open(ns@),
        ensures
            final(self).wf(),
            final(self).namespaces == old(self).namespaces,
            final(self).config == old(self).config,
            final(self).cache@ == cache_after_gets(
                old(self).cache@,
                encode_utf8(ns@),
                keys@,
                now,
            ),
            r@.len() == keys@.len(),
            forall|i: int|
                0 <= i < keys@.len() ==> (#[trigger] r@[i])@ == get_step(
                    old(self).cache@,
                    old(self).index_of(ns@),
                    cache_key_of(encode_utf8(ns@), keys@[i]@),
                    keys@[i]@,
                    now,
                ).1,
    {
        let mut out: Vec<GetStep> = Vec::new();
        let mut i: usize = 0;
        assert(keys@.take(0) =~= seq![]);
        while i < keys.len()
            invariant
                self.wf(),
                self.is_open(ns@),
                self.namespaces == old(self).namespaces,
                self.config == old(self).config,
                i <= keys@.len(),
                self.cache@ == cache_after_gets(
                    old(self).cache@,
                    encode_utf8(ns@),
                    keys@.take(i as int),
                    now,
                ),
                out@.len() == i,
                forall|j: int|
                    0 <= j < i ==> (#[trigger] out@[j])@ == get_step(
                        old(self).cache@,
                        old(self).index_of(ns@),
                        cache_key_of(encode_utf8(ns@), keys@[j]@),
                        keys@[j]@,
                        now,
                    ).1,
            decreases keys@.len() - i,
        {
            proof {
                lemma_mget_gives_what_get_gives(
                    old(self).cache@,
                    old(self).index_of(ns@),
                    encode_utf8(ns@),
                    keys@,
                    i as int,
                    None,
                    now,
                );
            }
            let step = self.get(ns, keys[i].as_slice(), now);
            out.push(step);
            assert(keys@.take(i + 1).drop_last() =~= keys@.take(i as int));
            i = i + 1;
        }
        assert(keys@.take(i as int) =~= keys@);
        out
    }

    /// The last step of a bulk read: for each key its entry, if it is there. `reads` are the
    /// records that were read, each a slot, a value and a metadata field, ascending by slot; the
    /// cache now has them too.
    pub fn mget_done(
        &mut self,
        ns: &str,
        keys: &Vec<Vec<u8>>,
        steps: Vec<GetStep>,
        reads: &Vec<(usize, Vec<u8>, Vec<u8>)>,
        now: u64,
    ) -> (r: Vec<Option<Entry>>)
        requires
            old(self).wf(),
            keys@.len() == steps@.len(),
            forall|i: int, j: int|
                0 <= i < j < reads@.len() ==> (#[trigger] reads@[i]).0 < (#[trigger] reads@[j]).0,
            forall|i: int|
                0 <= i < reads@.len() ==> (#[trigger] reads@[i]).0 < keys@.len()
                    && steps@[reads@[i].0 as int]@ is Read && cache_with_reads(
                    old(self).cache@,
                    encode_utf8(ns@),
                    keys@,
                    step_views(steps@),
                    reads@.take(i),
                ).has_room(
                    cache_key_of(encode_utf8(ns@), keys@[reads@[i].0 as int]@),
                    reads@[i].1@,
                    reads@[i].2@.len() as usize,
                ),
        ensures
            final(self).wf(),
            final(self).namespaces == old(self).namespaces,
            final(self).config == old(self).config,
            final(self).cache@ == cache_with_reads(
                old(self).cache@,
                encode_utf8(ns@),
                keys@,
                step_views(steps@),
                reads@,
            ),
            r@.len() == keys@.len(),
            forall|i: int|
                0 <= i < keys@.len() ==> entry_data(#[trigger] r@[i]) == answered(
                    steps@[i]@,
                    read_for(reads@, i),
                    now,
                ),
    {
        let ghost views = step_views(steps@);
        let n: usize = steps.len();
        // Where each key's read stands that is to be made of a record.
        let mut plan: Vec<Option<(u64, Option<u64>)>> = Vec::new();
        let mut out: Vec<Option<Entry>> = Vec::new();
        let mut rest: Vec<GetStep> = Vec::new();
        let mut steps = steps;
        while steps.len() > 0
            invariant
                steps@.len() + rest@.len() == n,
                n == views.len(),
                forall|j: int| 0 <= j < steps@.len() ==> (#[trigger] steps@[j])@ == views[j],
                forall|j: int| 0 <= j < rest@.len() ==> (#[trigger] rest@[j])@ == views[n - 1 - j],
            decreases steps@.len(),
        {
            if let Some(s) = steps.pop() {
                rest.push(s);
            }
        }
        let mut i: usize = 0;
        while i < n
            invariant
                i <= n,
                n == views.len(),
                rest@.len() == n - i,
                forall|j: int|
                    0 <= j < n - i ==> (#[trigger] rest@[j])@ == views[n - 1 - j],
                out@.len() == i,
                plan@.len() == i,
                forall|j: int|
                    0 <= j < i ==> (match views[j] {
                        StepView::Hit(d) => #[trigger] out@[j] matches Some(e) && e@ == d,
                        _ => out@[j] is None,
                    }),
                forall|j: int|
                    0 <= j < i ==> #[trigger] plan@[j] == (match views[j] {
                        StepView::Read { entry, expires_at_ms } => Some(
                            (entry.tstamp_ms, expires_at_ms),
                        ),
                        _ => None,
                    }),
            decreases n - i,
        {
            match rest.pop() {
                Some(s) => {
                    assert(s@ == views[i as int]);
                    match s {
                        GetStep::Hit(e) => {
                            out.push(Some(e));
                            plan.push(None);
                        },
                        GetStep::Read { entry, expires_at_ms } => {
                            out.push(None);
                            plan.push(Some((entry.tstamp_ms, expires_at_ms)));
                        },
                        _ => {
                            out.push(None);
                            plan.push(None);
                        },
                    }
                },
                None => {},
            }
            i = i + 1;
        }
        let ghost hits = out@;
        let mut j: usize = 0;
        assert(reads@.take(0) =~= seq![]);
        while j < reads.len()
            invariant
                self.wf(),
                self.namespaces == old(self).namespaces,
                self.config == old(self).config,
                j <= reads@.len(),
                n == views.len(),
                n == keys@.len(),
                n == out@.len(),
                n == plan@.len(),
                n == hits.len(),
                forall|a: int, b: int|
                    0 <= a < b < reads@.len() ==> (#[trigger] reads@[a]).0 < (
                    #[trigger] reads@[b]).0,
                forall|a: int|
                    0 <= a < reads@.len() ==> (#[trigger] reads@[a]).0 < keys@.len()
                        && views[reads@[a].0 as int] is Read && cache_with_reads(
                        old(self).cache@,
                        encode_utf8(ns@),
                        keys@,
                        views,
                        reads@.take(a),
                    ).has_room(
                        cache_key_of(encode_utf8(ns@), keys@[reads@[a].0 as int]@),
                        reads@[a].1@,
                        reads@[a].2@.len() as usize,
                    ),
                forall|a: int|
                    0 <= a < n ==> #[trigger] plan@[a] == (match views[a] {
                        StepView::Read { entry, expires_at_ms } => Some(
                            (entry.tstamp_ms, expires_at_ms),
                        ),
                        _ => None,
                    }),
                self.cache@ == cache_with_reads(
                    old(self).cache@,
                    encode_utf8(ns@),
                    keys@,
                    views,
                    reads@.take(j as int),
                ),
                forall|a: int|
                    0 <= a < n && (forall|b: int| 0 <= b < j ==> (#[trigger] reads@[b]).0 != a)
                        ==> #[trigger] out@[a] == hits[a],
                forall|b: int|
                    0 <= b < j ==> (out@[(#[trigger] reads@[b]).0 as int] matches Some(e) && (
                    views[reads@[b].0 as int] matches StepView::Read { entry, expires_at_ms } && e@
                        == read_data(
                        reads@[b].1@,
                        reads@[b].2@,
                        expires_at_ms,
                        entry.tstamp_ms,
                        now,
                    ))),
            decreases reads@.len() - j,
        {
            let slot: usize = reads[j].0;
            proof {
                assert(reads@[j as int].0 < keys@.len());
                assert(reads@.take(j + 1).drop_last() =~= reads@.take(j as int));
                assert(reads@.take(j + 1).last() == reads@[j as int]);
                assert(plan@[slot as int] is Some);
            }
            let ghost before = out@;
            if let Some((revision, expires_at_ms)) = plan[slot] {
                let e = self.get_done(
                    ns,
                    keys[slot].as_slice(),
                    bytes::to_owned(reads[j].1.as_slice()),
                    reads[j].2.as_slice(),
                    expires_at_ms,
                    revision,
                    now,
                );
                out[slot] = Some(e);
                proof {
                    assert forall|b: int| 0 <= b < j + 1 implies (out@[(
                    #[trigger] reads@[b]).0 as int] matches Some(e) && (
                    views[reads@[b].0 as int] matches StepView::Read { entry, expires_at_ms } && e@
                        == read_data(
                        reads@[b].1@,
                        reads@[b].2@,
                        expires_at_ms,
                        entry.tstamp_ms,
                        now,
                    ))) by {
                        if b < j {
                            assert(reads@[b].0 < reads@[j as int].0);
                            assert(out@[reads@[b].0 as int] == before[reads@[b].0 as int]);
                        }
                    }
                    assert forall|a: int|
                        0 <= a < n && (forall|b: int|
                            0 <= b < j + 1 ==> (#[trigger] reads@[b]).0 != a) implies
                        #[trigger] out@[a] == hits[a] by {
                        assert(reads@[j as int].0 != a);
                        assert(out@[a] == before[a]);
                    }
                }
            }
            j = j + 1;
        }
        assert(reads@.take(j as int) =~= reads@);
        proof {
            assert forall|i: int| 0 <= i < keys@.len() implies entry_data(#[trigger] out@[i])
                == answered(views[i], read_for(reads@, i), now) by {
                if exists|b: int| 0 <= b < reads@.len() && (#[trigger] reads@[b]).0 == i {
                    let b = choose|b: int| 0 <= b < reads@.len() && (#[trigger] reads@[b]).0 == i;
                    assert(views[reads@[b].0 as int] is Read);
                } else {
                    assert(out@[i] == hits[i]);
                }
            }
        }
        out
    }
}

/// The steps, each by what it says.
pub open spec fn step_views(v: Seq<GetStep>) -> Seq<StepView> {
    v.map_values(|s: GetStep| s@)
}

/// The page of a scan that a position stands for: the scan goes on behind the last of the keys
/// before it.
pub open spec fn position_cursor(items: Seq<(Vec<u8>, IndexEntry)>, pos: u64) -> Option<Seq<u8>> {
    if pos == 0 {
        None
    } else {
        Some(items[pos - 1].0@)
    }
}

/// The position in a cursor: eight little-endian bytes. Any other cursor stands for the start, and
/// so does `0`.
pub open spec fn cursor_position(cursor: Seq<u8>) -> u64 {
    if cursor.len() == 8 {
        u64_at(cursor, 0)
    } else {
        0
    }
}

/// The key passes the pattern, if there is one.
pub open spec fn passes(pattern: Option<Seq<u8>>, key: Seq<u8>) -> bool {
    match pattern {
        Some(p) => glob(p, key),
        None => true,
    }
}

/// The test that a pattern makes.
pub open spec fn pattern_test(pattern: Option<Seq<u8>>) -> spec_fn(Seq<u8>) -> bool {
    |key: Seq<u8>| passes(pattern, key)
}

/// The bytes of an optional pattern.
pub open spec fn pattern_view(p: Option<&[u8]>) -> Option<Seq<u8>> {
    match p {
        Some(p) => Some(p@),
        None => None,
    }
}

/// `cursor` is the position behind `last`: as many keys come before it or are it.
pub open spec fn cursor_behind(
    items: Seq<(Vec<u8>, IndexEntry)>,
    last: Seq<u8>,
    cursor: Seq<u8>,
) -> bool {
    exists|n: u64|
        n <= items.len() && cursor == #[trigger] le64(n) && (forall|i: int|
            0 <= i < n ==> (#[trigger] items[i]).0@ == last || before(items[i].0@, last)) && (
        forall|i: int| n <= i < items.len() ==> before(last, (#[trigger] items[i]).0@))
}

/// `keys` is the page of a scan, and `next_cursor` the cursor for the page behind it. A position
/// behind the last key ends the scan.
pub open spec fn scans(
    index: NsIndex,
    cursor: Seq<u8>,
    pattern: Option<Seq<u8>>,
    count: u64,
    now: u64,
    keys: Seq<Seq<u8>>,
    next_cursor: Seq<u8>,
) -> bool {
    let pos = cursor_position(cursor);
    if pos > index.items().len() {
        keys.len() == 0 && next_cursor == seq![48u8]
    } else {
        exists|next: Option<Seq<u8>>| #[trigger]
            is_page(
                index@,
                position_cursor(index.items(), pos),
                page_size(count as usize),
                now,
                pattern_test(pattern),
                keys,
                next,
            ) && match next {
                None => next_cursor == seq![48u8],
                Some(last) => cursor_behind(index.items(), last, next_cursor),
            }
    }
}

/// Scans a page. Cursor `0` is the start, and the same byte string as the next cursor says that
/// the scan is complete; a cursor in between is the position in the walk, as eight little-endian
/// bytes. May skip keys when keys before the position are deleted, and may see keys twice when
/// some are inserted there; within a page every key comes once.
pub fn scan_index(
    index: &NsIndex,
    cursor: &[u8],
    pattern: Option<&[u8]>,
    count: u64,
    now: u64,
) -> (r: ScanPage)
    requires
        index.wf(),
    ensures
        scans(*index, cursor@, pattern_view(pattern), count, now, key_views(r.keys@), r.next_cursor@),
{
    let pos: u64 = if cursor.len() == 8 {
        codec::read_u64(cursor, 0)
    } else {
        0
    };
    if pos > index.len() as u64 {
        let mut done: Vec<u8> = Vec::new();
        done.push(48);
        assert(done@ =~= seq![48u8]);
        return ScanPage { next_cursor: done, keys: Vec::new() };
    }
    let items = index.iter();
    let start: Option<&[u8]> = if pos == 0 {
        None
    } else {
        Some(items[(pos - 1) as usize].0.as_slice())
    };
    let filter = |k: &[u8]| -> (b: bool)
        ensures
            b == passes(pattern_view(pattern), k@),
        {
            match pattern {
                Some(p) => glob_match(p, k),
                None => true,
            }
        };
    let (keys, next) = index.scan(start, count as usize, now, filter);
    let ghost accept = pattern_test(pattern_view(pattern));
    assert(is_page(
        index@,
        position_cursor(index.items(), pos),
        page_size(count as usize),
        now,
        accept,
        key_views(keys@),
        key_view(next),
    ));
    let mut next_cursor: Vec<u8> = Vec::new();
    match next {
        None => {
            next_cursor.push(48);
            assert(next_cursor@ =~= seq![48u8]);
        },
        Some(last) => {
            let n: usize = index.rank_through(last.as_slice());
            codec::put_u64(&mut next_cursor, n as u64);
            assert(next_cursor@ =~= le64(n as u64));
            assert(cursor_behind(index.items(), last@, next_cursor@));
        },
    }
    ScanPage { next_cursor, keys }
}

impl ShardStore {
    /// Ends a write: the cache has the new contents.
    pub fn set_done(
        &mut self,
        ns: &str,
        key: &[u8],
        value: Vec<u8>,
        expires_at_ms: Option<u64>,
        metadata: Option<Vec<u8>>,
        revision: u64,
    )
        requires
            old(self).wf(),
            old(self).cache_has_room(
                ns@,
                key@,
                value@,
                match metadata {
                    Some(m) => m@.len() as usize,
                    None => 0,
                },
            ),
        ensures
            final(self).wf(),
            final(self).namespaces == old(self).namespaces,
            final(self).config == old(self).config,
            final(self).cache@.max_bytes == old(self).cache@.max_bytes,
            final(self).cache@ == inserted(
                old(self).cache@,
                cache_key_of(encode_utf8(ns@), key@),
                value@,
                expires_at_ms,
                meta_view(metadata),
                match metadata {
                    Some(m) => m@.len() as usize,
                    None => 0,
                },
                revision,
            ),
    {
        let meta_size: usize = match &metadata {
            Some(m) => m.len(),
            None => 0,
        };
        let ck = cache_key(ns, key);
        self.cache.insert(ck, value, expires_at_ms, metadata, meta_size, revision);
    }

    /// Ends a batch of writes: the cache has the new contents, in order.
    pub fn mset_done(&mut self, ns: &str, pairs: &Vec<(Vec<u8>, Vec<u8>)>, revisions: &Vec<u64>)
        requires
            old(self).wf(),
            pairs@.len() == revisions@.len(),
            forall|i: int|
                0 <= i < pairs@.len() ==> cache_with_pairs(
                    old(self).cache@,
                    encode_utf8(ns@),
                    pairs@.take(i),
                    revisions@,
                ).has_room(
                    cache_key_of(encode_utf8(ns@), (#[trigger] pairs@[i]).0@),
                    pairs@[i].1@,
                    0,
                ),
        ensures
            final(self).wf(),
            final(self).namespaces == old(self).namespaces,
            final(self).config == old(self).config,
            final(self).cache@ == cache_with_pairs(
                old(self).cache@,
                encode_utf8(ns@),
                pairs@,
                revisions@,
            ),
    {
        let mut i: usize = 0;
        assert(pairs@.take(0) =~= seq![]);
        while i < pairs.len()
            invariant
                self.wf(),
                self.namespaces == old(self).namespaces,
                self.config == old(self).config,
                i <= pairs@.len(),
                pairs@.len() == revisions@.len(),
                forall|j: int|
                    0 <= j < pairs@.len() ==> cache_with_pairs(
                        old(self).cache@,
                        encode_utf8(ns@),
                        pairs@.take(j),
                        revisions@,
                    ).has_room(
                        cache_key_of(encode_utf8(ns@), (#[trigger] pairs@[j]).0@),
                        pairs@[j].1@,
                        0,
                    ),
                self.cache@ == cache_with_pairs(
                    old(self).cache@,
                    encode_utf8(ns@),
                    pairs@.take(i as int),
                    revisions@,
                ),
            decreases pairs@.len() - i,
        {
            assert(pairs@.take(i + 1).drop_last() =~= pairs@.take(i as int));
            assert(pairs@.take(i + 1).last() == pairs@[i as int]);
            self.set_done(
                ns,
                pairs[i].0.as_slice(),
                bytes::to_owned(pairs[i].1.as_slice()),
                None,
                None,
                revisions[i],
            );
            i = i + 1;
        }
        assert(pairs@.take(i as int) =~= pairs@);
    }

    /// Drops a key from the cache: it was deleted, or its expiry changed.
    pub fn forget(&mut self, ns: &str, key: &[u8])
        requires
            old(self).wf(),
        ensures
            final(self).wf(),
            final(self).namespaces == old(self).namespaces,
            final(self).config == old(self).config,
            final(self).cache@ == old(self).cache@.removed(
                cache_key_of(encode_utf8(ns@), key@),
            ),
    {
        let ck = cache_key(ns, key);
        self.cache.remove(ck.as_slice());
    }

    /// Starts the deletion of a key. Says whether it counts: an expired key does not, it is already
    /// semantically gone. `now` is the clock.
    pub fn del(&mut self, ns: &str, key: &[u8], now: u64) -> (r: (Option<PendingTombstone>, bool))
        requires
            old(self).wf(),
            old(self).is_open(ns@),
            old(self).namespaces@[encode_utf8(ns@)]@.last_tstamp < u64::MAX,
        ensures
            final(self).wf(),
            final(self).cache == old(self).cache,
            final(self).config == old(self).config,
            r.1 == old(self).index_of(ns@).live(key@, now),
            r.0 is Some == old(self).index_of(ns@).map.dom().contains(key@),
            r.0 matches Some(p) ==> p.key@ == key@ && p.hash == old(self).index_of(
                ns@,
            ).valsep_of(key@) && p.tstamp == next_revision(
                old(self).namespaces@[encode_utf8(ns@)]@.last_tstamp,
                now,
            ),
            final(self).namespaces@.dom() == old(self).namespaces@.dom(),
            forall|q: Seq<u8>|
                q != encode_utf8(ns@) && #[trigger] old(self).namespaces@.dom().contains(q)
                    ==> final(self).namespaces@[q] == old(self).namespaces@[q],
            final(self).namespaces@[encode_utf8(ns@)]@ == (LogView {
                index: old(self).index_of(ns@).remove(key@),
                last_tstamp: if old(self).index_of(ns@).map.dom().contains(key@) {
                    next_revision(old(self).namespaces@[encode_utf8(ns@)]@.last_tstamp, now)
                } else {
                    old(self).namespaces@[encode_utf8(ns@)]@.last_tstamp
                },
                ..old(self).namespaces@[encode_utf8(ns@)]@
            }),
    {
        let ghost name = encode_utf8(ns@);
        let result = match self.log_mut(ns) {
            Some(log) => {
                let expired = log.index.is_expired(key, now);
                let pending = log.tombstone(key, now);
                let counts = pending.is_some() && !expired;
                (pending, counts)
            },
            None => (None, false),
        };
        assert(self.namespaces@.dom() =~= old(self).namespaces@.dom());
        result
    }

    /// Whether a key is there and not expired: what SETNX and SETXX go by.
    pub fn live(&self, ns: &str, key: &[u8], now: u64) -> (r: bool)
        requires
            self.wf(),
            self.is_open(ns@),
        ensures
            r == self.index_of(ns@).live(key@, now),
    {
        match self.namespaces.get(ns.as_bytes()) {
            Some(log) => log.index.get(key).is_some() && !log.index.is_expired(key, now),
            None => false,
        }
    }

    /// Starts a write: the put under way, with the expiry that the options ask for. Nothing is
    /// started where the namespace is not open. `now` is the clock.
    pub fn set(&mut self, ns: &str, key: &[u8], value: &[u8], opts: &SetOptions, now: u64) -> (r:
        Option<PendingPut>)
        requires
            old(self).wf(),
            old(self).is_open(ns@) ==> old(self).log_has_room(ns@),
            opts.ttl_ms matches Some(ms) ==> now + capped_ttl(ms) <= u64::MAX,
        ensures
            final(self).wf(),
            match r {
                Some(p) => old(self).is_open(ns@) && set_started(
                    *old(self),
                    ns@,
                    key@,
                    value@,
                    expiry_of_ttl(opts.ttl_ms, now),
                    now,
                    p,
                    *final(self),
                ),
                None => !old(self).is_open(ns@) && *final(self) == *old(self),
            },
    {
        let expires_at_ms = expiry_at(opts.ttl_ms, now);
        match self.log_mut(ns) {
            Some(log) => Some(log.put_full(bytes::to_owned(key), value, expires_at_ms, now)),
            None => None,
        }
    }

    /// Starts a write of a key that is not live; where it is live, nothing is started. An expired
    /// key counts as absent.
    pub fn setnx(&mut self, ns: &str, key: &[u8], value: &[u8], opts: &SetOptions, now: u64) -> (r:
        Option<PendingPut>)
        requires
            old(self).wf(),
            old(self).is_open(ns@),
            old(self).log_has_room(ns@),
            opts.ttl_ms matches Some(ms) ==> now + capped_ttl(ms) <= u64::MAX,
        ensures
            final(self).wf(),
            match r {
                Some(p) => !old(self).index_of(ns@).live(key@, now) && set_started(
                    *old(self),
                    ns@,
                    key@,
                    value@,
                    expiry_of_ttl(opts.ttl_ms, now),
                    now,
                    p,
                    *final(self),
                ),
                None => old(self).index_of(ns@).live(key@, now) && *final(self) == *old(self),
            },
    {
        if self.live(ns, key, now) {
            return None;
        }
        self.set(ns, key, value, opts, now)
    }

    /// Starts a write of a key that is live; where it is not, nothing is started.
    pub fn setxx(&mut self, ns: &str, key: &[u8], value: &[u8], opts: &SetOptions, now: u64) -> (r:
        Option<PendingPut>)
        requires
            old(self).wf(),
            old(self).is_open(ns@),
            old(self).log_has_room(ns@),
            opts.ttl_ms matches Some(ms) ==> now + capped_ttl(ms) <= u64::MAX,
        ensures
            final(self).wf(),
            match r {
                Some(p) => old(self).index_of(ns@).live(key@, now) && set_started(
                    *old(self),
                    ns@,
                    key@,
                    value@,
                    expiry_of_ttl(opts.ttl_ms, now),
                    now,
                    p,
                    *final(self),
                ),
                None => !old(self).index_of(ns@).live(key@, now) && *final(self) == *old(self),
            },
    {
        if !self.live(ns, key, now) {
            return None;
        }
        self.set(ns, key, value, opts, now)
    }

    /// How many of the keys are live, each as often as it is named.
    pub fn count_existing(&self, ns: &str, keys: &Vec<Vec<u8>>, now: u64) -> (r: u64)
        requires
            self.wf(),
            self.is_open(ns@),
        ensures
            r == count_live(self.index_of(ns@), keys@, now),
    {
        let mut count: u64 = 0;
        let mut i: usize = 0;
        assert(keys@.take(0) =~= seq![]);
        while i < keys.len()
            invariant
                self.wf(),
                self.is_open(ns@),
                i <= keys@.len(),
                count <= i,
                count == count_live(self.index_of(ns@), keys@.take(i as int), now),
            decreases keys@.len() - i,
        {
            assert(keys@.take(i + 1).drop_last() =~= keys@.take(i as int));
            if self.live(ns, keys[i].as_slice(), now) {
                count = count + 1;
            }
            i = i + 1;
        }
        assert(keys@.take(i as int) =~= keys@);
        count
    }

    /// Starts giving a key a lifetime: the new expiry of a live key. A key that is not live gets
    /// none, and leaves the cache.
    pub fn expire(&mut self, ns: &str, key: &[u8], ttl_ms: u128, now: u64) -> (r: Option<u64>)
        requires
            old(self).wf(),
            old(self).is_open(ns@),
            now + capped_ttl(ttl_ms) <= u64::MAX,
        ensures
            final(self).wf(),
            final(self).namespaces == old(self).namespaces,
            final(self).config == old(self).config,
            old(self).index_of(ns@).live(key@, now) ==> r == Some(
                (now + capped_ttl(ttl_ms)) as u64,
            ) && final(self).cache == old(self).cache,
            !old(self).index_of(ns@).live(key@, now) ==> r is None && final(self).cache@ == old(self).cache@.removed(cache_key_of(encode_utf8(ns@), key@)),
    {
        if !self.live(ns, key, now) {
            self.forget(ns, key);
            return None;
        }
        expiry_at(Some(ttl_ms), now)
    }

    /// Whether a key has an expiry to be taken away.
    pub fn persist(&self, ns: &str, key: &[u8]) -> (r: bool)
        requires
            self.wf(),
            self.is_open(ns@),
        ensures
            r == (self.index_of(ns@).map.dom().contains(key@) && self.index_of(ns@).ttl_of(
                key@,
            ) is Some),
    {
        match self.namespaces.get(ns.as_bytes()) {
            Some(log) => log.index.get(key).is_some() && log.index.ttl(key).is_some(),
            None => false,
        }
    }

    /// How long a key has to live, in whole seconds.
    pub fn ttl(&self, ns: &str, key: &[u8], now: u64) -> (r: TtlResult)
        requires
            self.wf(),
            self.is_open(ns@),
        ensures
            r == ttl_result(self.index_of(ns@), key@, now, 1000),
    {
        match self.pttl(ns, key, now) {
            TtlResult::Remaining(ms) => TtlResult::Remaining(ms / 1000),
            other => other,
        }
    }

    /// How long a key has to live, in milliseconds.
    pub fn pttl(&self, ns: &str, key: &[u8], now: u64) -> (r: TtlResult)
        requires
            self.wf(),
            self.is_open(ns@),
        ensures
            r == ttl_result(self.index_of(ns@), key@, now, 1),
    {
        match self.namespaces.get(ns.as_bytes()) {
            None => TtlResult::NotFound,
            Some(log) => match log.index.get(key) {
                None => TtlResult::NotFound,
                Some(_) => match log.index.ttl(key) {
                    None => TtlResult::NoExpiry,
                    Some(ms) => if ms <= now {
                        TtlResult::NotFound
                    } else {
                        TtlResult::Remaining(ms - now)
                    },
                },
            },
        }
    }

    /// Drops the expired entries of the cache.
    pub fn sweep_cache(&mut self, now: u64)
        requires
            old(self).wf(),
        ensures
            final(self).wf(),
            final(self).namespaces == old(self).namespaces,
            final(self).config == old(self).config,
            final(self).cache@ == old(self).cache@.without(
                crate::engine::cache::expired_keys(old(self).cache@.entries, now),
            ),
    {
        self.cache.sweep_expired(now);
    }

    /// The names of all open namespaces, each once.
    pub fn sync_logs(&self) -> (r: Vec<Vec<u8>>)
        requires
            self.wf(),
        ensures
            forall|k: Seq<u8>| #[trigger] key_views(r@).contains(k) <==> self.namespaces@.dom().contains(k),
            key_views(r@).no_duplicates(),
    {
        self.names_over(None)
    }

    /// The names of the namespaces that have more than `threshold` sealed files, each once; of all
    /// where there is no threshold.
    fn names_over(&self, threshold: Option<usize>) -> (r: Vec<Vec<u8>>)
        requires
            self.wf(),
        ensures
            forall|k: Seq<u8>| #[trigger]
                key_views(r@).contains(k) <==> self.namespaces@.dom().contains(k) && (
                threshold matches Some(t) ==> self.namespaces@[k]@.sealed.len() > t),
            key_views(r@).no_duplicates(),
    {
        let mut out: Vec<Vec<u8>> = Vec::new();
        let n: usize = self.namespaces.len();
        let mut i: usize = 0;
        let ghost items = self.namespaces.items();
        let ghost over = |l: NamespaceLog| threshold matches Some(t) ==> l@.sealed.len() > t;
        proof {
            self.namespaces.lemma_items();
        }
        while i < n
            invariant
                self.wf(),
                items == self.namespaces.items(),
                n == items.len(),
                i <= n,
                over == (|l: NamespaceLog| threshold matches Some(t) ==> l@.sealed.len() > t),
                forall|a: int, b: int|
                    0 <= a < items.len() && 0 <= b < items.len() && (#[trigger] items[a]).0@ == (
                    #[trigger] items[b]).0@ ==> a == b,
                forall|j: int|
                    0 <= j < out@.len() ==> named_by(
                        items,
                        i as int,
                        over,
                        #[trigger] key_views(out@)[j],
                    ),
                forall|m: int|
                    0 <= m < i && over((#[trigger] items[m]).1) ==> key_views(out@).contains(
                        items[m].0@,
                    ),
                key_views(out@).no_duplicates(),
            decreases n - i,
        {
            let item = self.namespaces.item(i);
            let ghost was = key_views(out@);
            let take = match threshold {
                Some(t) => item.1.sealed_file_count() > t,
                None => true,
            };
            assert(take == over(items[i as int].1));
            if take {
                out.push(bytes::to_owned(item.0.as_slice()));
                proof {
                    let k = items[i as int].0@;
                    assert(key_views(out@) =~= was.push(k));
                    assert(!was.contains(k)) by {
                        if was.contains(k) {
                            let j = choose|j: int| 0 <= j < was.len() && was[j] == k;
                            assert(named_by(items, i as int, over, was[j]));
                            let m = choose|m: int|
                                0 <= m < i && over(items[m].1) && (#[trigger] items[m]).0@ == was[j];
                            assert(items[m].0@ == items[i as int].0@);
                        }
                    }
                    assert forall|m: int|
                        0 <= m < i + 1 && over((#[trigger] items[m]).1) implies key_views(
                        out@,
                    ).contains(items[m].0@) by {
                        if m < i {
                            assert(was.contains(items[m].0@));
                            let j = choose|j: int| 0 <= j < was.len() && was[j] == items[m].0@;
                            assert(key_views(out@)[j] == items[m].0@);
                        } else {
                            assert(key_views(out@)[was.len() as int] == items[m].0@);
                        }
                    }
                }
            }
            proof {
                assert forall|j: int| 0 <= j < out@.len() implies named_by(
                    items,
                    i + 1,
                    over,
                    #[trigger] key_views(out@)[j],
                ) by {
                    if j < was.len() {
                        assert(key_views(out@)[j] == was[j]);
                        assert(named_by(items, i as int, over, was[j]));
                        let m = choose|m: int|
                            0 <= m < i && over(items[m].1) && (#[trigger] items[m]).0@ == was[j];
                        assert(items[m].0@ == key_views(out@)[j]);
                    } else {
                        assert(items[i as int].0@ == key_views(out@)[j]);
                    }
                }
            }
            i = i + 1;
        }
        proof {
            self.namespaces.lemma_items();
            assert forall|k: Seq<u8>| #[trigger] key_views(out@).contains(k) implies
                self.namespaces@.dom().contains(k) && (threshold matches Some(t) ==>
                self.namespaces@[k]@.sealed.len() > t) by {
                let j = choose|j: int| 0 <= j < key_views(out@).len() && key_views(out@)[j] == k;
                assert(named_by(items, n as int, over, key_views(out@)[j]));
                let m = choose|m: int|
                    0 <= m < n && over(items[m].1) && (#[trigger] items[m]).0@
                        == key_views(out@)[j];
                assert(self.namespaces@.dom().contains(items[m].0@));
            }
            assert forall|k: Seq<u8>|
                self.namespaces@.dom().contains(k) && (threshold matches Some(t) ==>
                self.namespaces@[k]@.sealed.len() > t) implies #[trigger] key_views(
                out@,
            ).contains(k) by {
                let m = self.namespaces.place(k);
                assert(items[m].0@ == k);
                assert(over(items[m].1));
            }
        }
        out
    }

    /// The names of the namespaces that have more than `threshold` sealed files, each once: they
    /// are to be reclaimed. A threshold of 0 disables this.
    pub fn reclaim_if_needed(&self, threshold: usize) -> (r: Vec<Vec<u8>>)
        requires
            self.wf(),
        ensures
            forall|k: Seq<u8>| #[trigger]
                key_views(r@).contains(k) <==> threshold > 0 && self.namespaces@.dom().contains(k)
                    && self.namespaces@[k]@.sealed.len() > threshold,
            key_views(r@).no_duplicates(),
    {
        if threshold == 0 {
            return Vec::new();
        }
        self.names_over(Some(threshold))
    }

    /// Scans a page of a namespace.
    pub fn scan(
        &self,
        ns: &str,
        cursor: &[u8],
        pattern: Option<&[u8]>,
        count: u64,
        now: u64,
    ) -> (r: ScanPage)
        requires
            self.wf(),
            self.is_open(ns@),
        ensures
            scans(
                self.namespaces@[encode_utf8(ns@)].index,
                cursor@,
                pattern_view(pattern),
                count,
                now,
                key_views(r.keys@),
                r.next_cursor@,
            ),
    {
        match self.namespaces.get(ns.as_bytes()) {
            Some(log) => scan_index(&log.index, cursor, pattern, count, now),
            None => ScanPage { next_cursor: Vec::new(), keys: Vec::new() },
        }
    }

    pub fn db_size(&self, ns: &str) -> (r: u64)
        requires
            self.wf(),
            self.is_open(ns@),
        ensures
            r == self.index_of(ns@).map.dom().len(),
    {
        match self.namespaces.get(ns.as_bytes()) {
            Some(log) => log.len() as u64,
            None => 0,
        }
    }

    /// Starts a flush of a namespace: its keys leave the cache. The log is then to be flushed.
    pub fn flush_db(&mut self, ns: &str)
        requires
            old(self).wf(),
            old(self).is_open(ns@),
        ensures
            final(self).wf(),
            final(self).namespaces == old(self).namespaces,
            final(self).config == old(self).config,
            final(self).cache@ == cache_without_keys(
                old(self).cache@,
                encode_utf8(ns@),
                old(self).namespaces@[encode_utf8(ns@)].index.items(),
            ),
    {
        if let Some(log) = self.namespaces.get(ns.as_bytes()) {
            let items = log.index.iter();
            let mut i: usize = 0;
            let ghost name = encode_utf8(ns@);
            assert(items@.take(0) =~= seq![]);
            while i < items.len()
                invariant
                    self.cache.wf(),
                    self.namespaces == old(self).namespaces,
                    self.config == old(self).config,
                    name == encode_utf8(ns@),
                    i <= items@.len(),
                    self.cache@ == cache_without_keys(
                        old(self).cache@,
                        name,
                        items@.take(i as int),
                    ),
                decreases items@.len() - i,
            {
                assert(items@.take(i + 1).drop_last() =~= items@.take(i as int));
                let ck = cache_key(ns, items[i].0.as_slice());
                self.cache.remove(ck.as_slice());
                i = i + 1;
            }
            assert(items@.take(i as int) =~= items@);
        }
    }
}

/// One of the first `n` pairs satisfies `p` and has this name.
spec fn named_by(
    items: Seq<(Vec<u8>, NamespaceLog)>,
    n: int,
    p: spec_fn(NamespaceLog) -> bool,
    k: Seq<u8>,
) -> bool {
    exists|m: int| 0 <= m < n && p(items[m].1) && (#[trigger] items[m]).0@ == k
}

/// A flush leaves nothing of the namespace's keys in the cache.
pub proof fn lemma_flush_empties_cache(
    cache: CacheView,
    ns: Seq<u8>,
    items: Seq<(Vec<u8>, IndexEntry)>,
    i: int,
)
    requires
        0 <= i < items.len(),
    ensures
        !cache_without_keys(cache, ns, items).entries.dom().contains(
            cache_key_of(ns, items[i].0@),
        ),
    decreases items.len(),
{
    if i < items.len() - 1 {
        lemma_flush_empties_cache(cache, ns, items.drop_last(), i);
    }
}

} // verus!
