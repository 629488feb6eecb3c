//! Writes. Each is a few steps:
//!
//! 1. `begin_write`, then `put_full`, `put_full_cond`, `tombstone`, `tombstone_cond` or
//!    `ttl_update`: the write gets its revision, and a large value its blob.
//! 2. Where a blob is to be written, it is made durable; `blob_failed` where that fails.
//! 3. `put_record`, `tombstone_record` or `ttl_record`: the record and its place in the log.
//! 4. The record is written there; then `put_done`, `tombstone_done` or `ttl_done`, or
//!    `put_failed` or `append_failed`.
//! 5. `end_write`.
//!
//! The caller holds the key's stripe from the first step to the last.
use std::hash::{Hash, Hasher};

use vstd::prelude::*;

use crate::bytes;
use crate::engine::error::{EngineError, Result};
use crate::engine::log::file::LogFile;
use crate::engine::log::index::{IndexEntry, IndexView};
use crate::engine::log::record::flags::{NO_EXPIRY, TOMBSTONE, TTL_UPDATE, VALUE_SEP};
use crate::engine::log::record::{
    encode, encode_into, fits, header_at, lemma_record_round_trip, record_bytes, HEADER_LEN,
};
use crate::engine::log::recover::{
    lemma_hash_of, lemma_replay_append, lemma_written_is_good, replay,
};
use crate::engine::log::{next_revision, LogView, NamespaceLog};
use crate::engine::value_store::{content, ContentHash, ValueView};

verus! {

/// Condition for a conditional write. Used by [`NamespaceLog::put_full_cond`].
#[derive(Debug, Clone, Copy, PartialEq, Eq, Structural)]
pub enum WriteCondition {
    /// Write only if the key is absent or expired (SETNX semantics).
    KeyAbsent,
    /// Write only if the key is present and live (SETXX semantics).
    KeyPresent,
    /// Write only if the key's current revision matches exactly (CAS semantics).
    Revision(u64),
}

impl WriteCondition {
    /// The condition holds of a key with this revision, or of a key that is not there.
    pub open spec fn holds(self, current_rev: Option<u64>) -> bool {
        match self {
            WriteCondition::KeyAbsent => current_rev is None,
            WriteCondition::KeyPresent => current_rev is Some,
            WriteCondition::Revision(rev) => current_rev == Some(rev),
        }
    }

    pub fn check(&self, current_rev: Option<u64>) -> (r: bool)
        ensures
            r == self.holds(current_rev),
    {
        match self {
            WriteCondition::KeyAbsent => current_rev.is_none(),
            WriteCondition::KeyPresent => current_rev.is_some(),
            WriteCondition::Revision(rev) => match current_rev {
                Some(cur) => cur == *rev,
                None => false,
            },
        }
    }
}

/// The revision of a key that is there and not expired.
pub open spec fn live_revision(idx: IndexView, key: Seq<u8>, now: u64) -> Option<u64> {
    if idx.live(key, now) {
        Some(idx.map[key].tstamp_ms)
    } else {
        None
    }
}

/// Number of write-lock stripes per namespace. Powers of two keep `& (N-1)`
/// cheap. 64 keeps per-key false-collisions rare without much memory.
pub const WRITE_STRIPES: usize = 64;

/// `rustc_hash::FxHasher` fed with a byte slice through `Hash::hash`. Nothing is claimed of the
/// number: it differs from one kind of machine to another.
#[verifier::external_body]
pub(crate) fn fx_hash(key: &[u8]) -> (r: u64) {
    let mut h = rustc_hash::FxHasher::default();
    key.hash(&mut h);
    h.finish()
}

/// The stripe for a hash.
pub fn stripe_of(hash: u64) -> (r: usize)
    ensures
        r == hash % 64,
        r < WRITE_STRIPES,
{
    (hash % 64) as usize
}

/// Asks a hasher for the number of a key.
fn hashed<F: Fn(&[u8]) -> u64>(hasher: F, key: &[u8]) -> (r: u64)
    requires
        call_requires(hasher, (key,)),
    ensures
        call_ensures(hasher, (key,), r),
{
    hasher(key)
}

/// The stripe is the one for a number that the hasher may give for the key.
pub closed spec fn striped(key: Seq<u8>, stripe: usize) -> bool {
    exists|k: &[u8], hash: u64|
        k@ == key && #[trigger] call_ensures(fx_hash, (k,), hash) && stripe == hash % 64
}

/// A stripe is a key's only where the hasher gives a number for the key's bytes that, modulo 64, is
/// the stripe.
pub(crate) proof fn lemma_stripe_is_the_hashers(key: Seq<u8>, stripe: usize)
    requires
        striped(key, stripe),
    ensures
        stripe < 64,
        exists|k: &[u8], hash: u64|
            k@ == key && #[trigger] call_ensures(fx_hash, (k,), hash) && stripe == hash % 64,
{
}

/// Stripe index for `key`: same key, same stripe, so two writes to it never interleave. Which stripe
/// it is goes by the hash, of which nothing more is claimed.
pub fn stripe_idx(key: &[u8]) -> (r: usize)
    ensures
        r < WRITE_STRIPES,
        striped(key@, r),
{
    let hash: u64 = hashed(fx_hash, key);
    stripe_of(hash)
}

/// The place of an append.
#[derive(Debug, Clone, Copy, PartialEq, Eq, Structural)]
pub struct Place {
    pub file_id: u32,
    pub offset: u64,
    pub len: u64,
}

/// A put under way.
pub struct PendingPut {
    pub key: Vec<u8>,
    /// The revision of this write. Callers use it, not the log's last revision, for caches and
    /// responses: concurrent writes may have taken later ones.
    pub tstamp: u64,
    pub flags: u8,
    pub expires_at_ms: Option<u64>,
    /// The content hash that the record carries in place of the value.
    pub hash: Option<ContentHash>,
    /// The blob is to be written, and made durable, before the record.
    pub write_blob: bool,
}

/// A deletion under way.
pub struct PendingTombstone {
    pub key: Vec<u8>,
    pub tstamp: u64,
    /// The blob that the key referred to.
    pub hash: Option<ContentHash>,
}

/// A change of a key's expiry under way.
pub struct PendingTtl {
    pub key: Vec<u8>,
    pub tstamp: u64,
    pub expires_at_ms: Option<u64>,
}

/// A batch of puts under way.
pub struct Batch {
    pub puts: Vec<PendingPut>,
    /// Where each record begins in `buf`, and how long it is.
    pub layout: Vec<(u64, u32)>,
    /// The records, one behind the other.
    pub buf: Vec<u8>,
}

/// The flags of a put record.
pub open spec fn put_flags(expires_at_ms: Option<u64>, separated: bool) -> u8 {
    (if expires_at_ms is None {
        NO_EXPIRY
    } else {
        0
    }) | (if separated {
        VALUE_SEP
    } else {
        0
    })
}

/// The expiry field of a record.
pub open spec fn expiry_field(expires_at_ms: Option<u64>) -> u64 {
    match expires_at_ms {
        Some(ms) => ms,
        None => 0,
    }
}

/// What a put record carries as its value: the content hash of a separated one.
pub open spec fn stored(hash: Option<ContentHash>, value: Seq<u8>) -> Seq<u8> {
    match hash {
        Some(h) => h@,
        None => value,
    }
}

/// The bytes of a put's record.
pub open spec fn put_bytes(p: PendingPut, value: Seq<u8>, metadata: Seq<u8>) -> Seq<u8> {
    record_bytes(
        p.tstamp,
        p.flags,
        expiry_field(p.expires_at_ms),
        p.key@,
        stored(p.hash, value),
        metadata,
    )
}

/// The state with a put under way, given the state before, and the put: it has taken a revision,
/// and a reference to its blob where the value is separated.
pub open spec fn staged(
    s: LogView,
    key: Seq<u8>,
    value: Seq<u8>,
    expires_at_ms: Option<u64>,
    clock: u64,
    p: PendingPut,
    t: LogView,
) -> bool {
    let separate = value.len() >= s.config.value_sep_threshold;
    let tstamp = next_revision(s.last_tstamp, clock);
    &&& p.key@ == key
    &&& p.tstamp == tstamp
    &&& p.flags == put_flags(expires_at_ms, separate)
    &&& p.expires_at_ms == expires_at_ms
    &&& p.hash == (if separate {
        Some(content(value))
    } else {
        None
    })
    &&& p.write_blob == (separate && s.values.count(content(value)) == 0)
    &&& t == (LogView { last_tstamp: tstamp, values: s.values.inc_opt(p.hash), ..s })
}

/// The index entry of a put.
pub open spec fn put_entry(p: PendingPut, file_id: u32, offset: u64, size: u32) -> IndexEntry {
    IndexEntry { record_offset: offset, record_size: size, file_id, tstamp_ms: p.tstamp }
}

/// The index behind a put whose record was written.
pub open spec fn put_index(idx: IndexView, p: PendingPut, file_id: u32, offset: u64, size: u32) -> IndexView {
    idx.insert(p.key@, put_entry(p, file_id, offset, size), p.expires_at_ms).set_valsep(
        p.key@,
        p.hash,
    )
}

/// The state behind `s` with the file `file_id` poisoned.
pub open spec fn poisoned(s: LogView, file_id: u32) -> LogView {
    if s.active.file_id == file_id {
        LogView { active: LogFile { poisoned: true, ..s.active }, ..s }
    } else {
        s
    }
}

/// The file has grown to where it is to be rotated.
pub open spec fn calls_for_rotation(s: LogView, file_id: u32) -> bool {
    s.file(file_id) matches Some(f) && f.write_offset >= s.config.rotate_threshold
}

impl NamespaceLog {
    /// Enters a write, unless writes are frozen.
    pub fn begin_write(&mut self) -> (r: Result<()>)
        requires
            old(self).wf(),
            old(self)@.in_flight_writes < u32::MAX,
        ensures
            final(self).wf(),
            old(self)@.frozen ==> r == Err::<(), EngineError>(EngineError::Frozen) && final(self)@
                == old(self)@,
            !old(self)@.frozen ==> r == Ok::<(), EngineError>(()) && final(self)@ == (LogView {
                in_flight_writes: (old(self)@.in_flight_writes + 1) as u32,
                ..old(self)@
            }),
    {
        if self.frozen {
            return Err(EngineError::Frozen);
        }
        self.in_flight_writes = self.in_flight_writes + 1;
        Ok(())
    }

    /// Leaves a write.
    pub fn end_write(&mut self)
        requires
            old(self).wf(),
        ensures
            final(self).wf(),
            final(self)@ == (LogView {
                in_flight_writes: if old(self)@.in_flight_writes == 0 {
                    0
                } else {
                    (old(self)@.in_flight_writes - 1) as u32
                },
                ..old(self)@
            }),
    {
        if self.in_flight_writes > 0 {
            self.in_flight_writes = self.in_flight_writes - 1;
        }
    }

    /// Takes the next revision. `now` is the clock.
    pub fn next_tstamp(&mut self, now: u64) -> (r: u64)
        requires
            old(self).wf(),
            old(self)@.last_tstamp < u64::MAX,
        ensures
            final(self).wf(),
            r == next_revision(old(self)@.last_tstamp, now),
            r > old(self)@.last_tstamp,
            final(self)@ == (LogView { last_tstamp: r, ..old(self)@ }),
    {
        let next: u64 = if now > self.last_tstamp {
            now
        } else {
            self.last_tstamp + 1
        };
        self.last_tstamp = next;
        next
    }

    /// If `value` is large enough to separate, takes a reference to its blob.
    fn maybe_separate(&mut self, value: &[u8]) -> (r: (Option<ContentHash>, bool))
        requires
            old(self).wf(),
            old(self)@.values.has_room(),
        ensures
            final(self).wf(),
            r.0 == (if value@.len() >= old(self)@.config.value_sep_threshold {
                Some(content(value@))
            } else {
                None
            }),
            r.1 == (r.0 is Some && old(self)@.values.count(content(value@)) == 0),
            final(self)@ == (LogView { values: old(self)@.values.inc_opt(r.0), ..old(self)@ }),
    {
        if value.len() >= self.config.value_sep_threshold {
            let (h, first) = self.values.put(value);
            (Some(h), first)
        } else {
            (None, false)
        }
    }

    /// Starts a put. `now` is the clock.
    pub fn put_full(
        &mut self,
        key: Vec<u8>,
        value: &[u8],
        expires_at_ms: Option<u64>,
        now: u64,
    ) -> (p: PendingPut)
        requires
            old(self).wf(),
            old(self)@.last_tstamp < u64::MAX,
            old(self)@.values.has_room(),
        ensures
            final(self).wf(),
            staged(old(self)@, key@, value@, expires_at_ms, now, p, final(self)@),
    {
        let tstamp: u64 = self.next_tstamp(now);
        let (hash, write_blob) = self.maybe_separate(value);
        let mut flags: u8 = 0;
        if expires_at_ms.is_none() {
            flags = flags | NO_EXPIRY;
        }
        if hash.is_some() {
            flags = flags | VALUE_SEP;
        }
        proof {
            assert(0u8 | 2u8 == 2u8 | 0u8) by (bit_vector);
            assert(0u8 | 8u8 == 8u8) by (bit_vector);
            assert((0u8 | 2u8) | 8u8 == 2u8 | 8u8) by (bit_vector);
            assert(0u8 | 0u8 == 0u8) by (bit_vector);
        }
        PendingPut { key, tstamp, flags, expires_at_ms, hash, write_blob }
    }

    /// The revision of a key that is there and not expired.
    pub fn live_rev(&self, key: &[u8], now: u64) -> (r: Option<u64>)
        requires
            self.wf(),
        ensures
            r == live_revision(self@.index, key@, now),
    {
        if self.index.is_expired(key, now) {
            None
        } else {
            match self.index.get(key) {
                Some(e) => Some(e.tstamp_ms),
                None => None,
            }
        }
    }

    /// Starts a conditional put: only if the current live state of `key` at `now` satisfies `cond`.
    /// The key's stripe is held, so no concurrent write to the same key can interleave; a failed
    /// condition writes nothing at all. `clock` is the clock for the revision.
    pub fn put_full_cond(
        &mut self,
        key: Vec<u8>,
        value: &[u8],
        expires_at_ms: Option<u64>,
        cond: WriteCondition,
        now: u64,
        clock: u64,
    ) -> (r: Option<PendingPut>)
        requires
            old(self).wf(),
            old(self)@.last_tstamp < u64::MAX,
            old(self)@.values.has_room(),
        ensures
            final(self).wf(),
            match r {
                Some(p) => cond.holds(live_revision(old(self)@.index, key@, now)) && staged(
                    old(self)@,
                    key@,
                    value@,
                    expires_at_ms,
                    clock,
                    p,
                    final(self)@,
                ),
                None => !cond.holds(live_revision(old(self)@.index, key@, now)) && final(self)@
                    == old(self)@,
            },
    {
        let current = self.live_rev(key.as_slice(), now);
        if !cond.check(current) {
            return None;
        }
        Some(self.put_full(key, value, expires_at_ms, clock))
    }

    /// Gives up a put whose blob could not be made durable: its reference is taken back, so no
    /// phantom reference to a missing blob is left.
    pub fn blob_failed(&mut self, p: &PendingPut)
        requires
            old(self).wf(),
        ensures
            final(self).wf(),
            final(self)@ == (LogView {
                values: match p.hash {
                    Some(h) => old(self)@.values.dec(h),
                    None => old(self)@.values,
                },
                ..old(self)@
            }),
    {
        if let Some(h) = p.hash {
            self.values.put_failed(&h);
        }
    }

    /// Reserves the place of `len` bytes in the active file.
    fn reserve(&mut self, len: usize) -> (r: Result<Place>)
        requires
            old(self).wf(),
            old(self)@.room_for(len as int),
        ensures
            final(self).wf(),
            reserved(old(self)@, len as int, r, final(self)@),
    {
        match self.active.reserve(len) {
            Ok(offset) => Ok(Place { file_id: self.active.file_id, offset, len: len as u64 }),
            Err(e) => Err(e),
        }
    }

    /// Makes the record of a put and reserves its place. `value` is the value that the put was
    /// started with.
    pub fn put_record(&mut self, p: &PendingPut, value: &[u8], metadata: &[u8]) -> (r: Result<
        (Place, Vec<u8>),
    >)
        requires
            old(self).wf(),
            old(self)@.room_for(u32::MAX as int),
        ensures
            final(self).wf(),
            !fits(p.key@, stored(p.hash, value@), metadata@) ==> final(self)@ == old(self)@ && r
                == Err::<(Place, Vec<u8>), EngineError>(
                EngineError::BadRecord { offset: 0, reason: "record exceeds 4 GiB limit" },
            ),
            fits(p.key@, stored(p.hash, value@), metadata@) ==> match r {
                Ok((place, b)) => b@ == put_bytes(*p, value@, metadata@) && reserved(
                    old(self)@,
                    b@.len() as int,
                    Ok(place),
                    final(self)@,
                ),
                Err(e) => old(self)@.active.poisoned && e == (EngineError::Io {
                    reason: "log file poisoned after prior write error",
                }) && final(self)@ == (LogView {
                    values: old(self)@.values.unref_opt(p.hash),
                    ..old(self)@
                }),
            },
    {
        let exp: u64 = match p.expires_at_ms {
            Some(ms) => ms,
            None => 0,
        };
        let encoded = match &p.hash {
            Some(h) => encode(p.tstamp, p.flags, exp, p.key.as_slice(), h.as_slice(), metadata),
            None => encode(p.tstamp, p.flags, exp, p.key.as_slice(), value, metadata),
        };
        let bytes = match encoded {
            Ok(b) => b,
            Err(e) => {
                return Err(e);
            },
        };
        proof {
            lemma_record_len(
                p.tstamp,
                p.flags,
                exp,
                p.key@,
                stored(p.hash, value@),
                metadata@,
            );
        }
        match self.reserve(bytes.len()) {
            Ok(place) => Ok((place, bytes)),
            Err(e) => {
                self.values.unref_opt(p.hash);
                Err(e)
            },
        }
    }

    /// Takes note that the bytes of a place could not be written: what stands there is unknown, so
    /// nothing may be appended behind it.
    pub fn append_failed(&mut self, place: &Place)
        requires
            old(self).wf(),
        ensures
            final(self).wf(),
            final(self)@ == poisoned(old(self)@, place.file_id),
    {
        if self.active.file_id == place.file_id {
            self.active.poison();
        }
    }

    /// Gives up a put whose record could not be written: the blob's reference is taken back, so no
    /// blob is left that is referenced but that no record points at.
    pub fn put_failed(&mut self, p: &PendingPut, place: &Place)
        requires
            old(self).wf(),
        ensures
            final(self).wf(),
            final(self)@ == (LogView {
                values: old(self)@.values.unref_opt(p.hash),
                ..poisoned(old(self)@, place.file_id)
            }),
    {
        self.append_failed(place);
        self.values.unref_opt(p.hash);
    }

    /// Insert the index entry and update the value-sep sidecar. The key's previous blob (if it was
    /// value-separated) loses its reference — covering overwrite, large→small, and same-content
    /// cases uniformly (the new blob was already ref'd).
    fn apply_valsep_insert(&mut self, p: &PendingPut, file_id: u32, offset: u64, size: u32)
        requires
            old(self).wf(),
        ensures
            final(self).wf(),
            final(self)@ == (LogView {
                index: put_index(old(self)@.index, *p, file_id, offset, size),
                values: old(self)@.values.unref_opt(old(self)@.index.valsep_of(p.key@)),
                ..old(self)@
            }),
    {
        let old_hash = self.index.valsep(p.key.as_slice());
        let entry = IndexEntry::new(file_id, offset, size, p.tstamp);
        self.index.insert(bytes::to_owned(p.key.as_slice()), entry, p.expires_at_ms);
        self.index.set_valsep(p.key.as_slice(), p.hash);
        self.values.unref_opt(old_hash);
    }

    /// Commits a put whose record was written. The result is its revision, and whether the active
    /// file is to be rotated now.
    pub fn put_done(&mut self, p: &PendingPut, place: &Place) -> (r: (u64, bool))
        requires
            old(self).wf(),
            place.len <= u32::MAX,
            old(self)@.unsynced_bytes + place.len <= u64::MAX,
        ensures
            final(self).wf(),
            final(self)@ == (LogView {
                unsynced_bytes: (old(self)@.unsynced_bytes + place.len) as u64,
                index: put_index(
                    old(self)@.index,
                    *p,
                    place.file_id,
                    place.offset,
                    place.len as u32,
                ),
                values: old(self)@.values.unref_opt(old(self)@.index.valsep_of(p.key@)),
                ..old(self)@
            }),
            r.0 == p.tstamp,
            r.1 == calls_for_rotation(old(self)@, place.file_id),
    {
        self.unsynced_bytes = self.unsynced_bytes + place.len;
        self.apply_valsep_insert(p, place.file_id, place.offset, place.len as u32);
        (p.tstamp, self.rotation_due(place.file_id))
    }

    /// Whether the file has grown to where it is to be rotated.
    fn rotation_due(&self, file_id: u32) -> (r: bool)
        ensures
            r == calls_for_rotation(self@, file_id),
    {
        match self.locate_file(file_id) {
            Some(f) => f.write_offset >= self.config.rotate_threshold,
            None => false,
        }
    }
}

/// The outcome of reserving the place of `len` bytes in state `s`, and the state behind it.
pub open spec fn reserved(s: LogView, len: int, r: Result<Place>, t: LogView) -> bool {
    if s.active.poisoned {
        t == s && r == Err::<Place, EngineError>(
            EngineError::Io { reason: "log file poisoned after prior write error" },
        )
    } else {
        &&& r == Ok::<Place, EngineError>(
            Place { file_id: s.active.file_id, offset: s.active.write_offset, len: len as u64 },
        )
        &&& t == (LogView {
            active: LogFile { write_offset: (s.active.write_offset + len) as u64, ..s.active },
            ..s
        })
    }
}

/// How long a record is.
pub proof fn lemma_record_len(
    tstamp_ms: u64,
    flags: u8,
    expires_at_ms: u64,
    key: Seq<u8>,
    value: Seq<u8>,
    metadata: Seq<u8>,
)
    ensures
        record_bytes(tstamp_ms, flags, expires_at_ms, key, value, metadata).len() == HEADER_LEN
            + key.len() + value.len() + metadata.len(),
{
    crate::codec::lemma_le64(tstamp_ms);
    crate::codec::lemma_le64(expires_at_ms);
    crate::codec::lemma_le32(key.len() as u32);
    crate::codec::lemma_le32(value.len() as u32);
    crate::codec::lemma_le32(metadata.len() as u32);
    crate::codec::lemma_le64(
        crate::engine::log::record::crc64(
            crate::engine::log::record::covered(
                tstamp_ms,
                flags,
                expires_at_ms,
                key,
                value,
                metadata,
            ),
        ),
    );
}

/// The stripes of several keys, each once and in ascending order, so that two batches (or a batch
/// and a single write) can never wait for each other in a cycle.
pub fn stripe_set(stripes: &Vec<usize>) -> (r: Vec<usize>)
    ensures
        forall|i: int, j: int| 0 <= i < j < r@.len() ==> #[trigger] r@[i] < #[trigger] r@[j],
        forall|s: usize| r@.contains(s) <==> stripes@.contains(s),
{
    let mut out: Vec<usize> = Vec::new();
    let mut k: usize = 0;
    while k < stripes.len()
        invariant
            k <= stripes@.len(),
            forall|i: int, j: int|
                0 <= i < j < out@.len() ==> #[trigger] out@[i] < #[trigger] out@[j],
            forall|i: int| 0 <= i < out@.len() ==> stripes@.contains(#[trigger] out@[i]),
            forall|i: int| 0 <= i < k ==> out@.contains(#[trigger] stripes@[i]),
        decreases stripes@.len() - k,
    {
        let s: usize = stripes[k];
        let ghost was = out@;
        let mut at: usize = out.len();
        while at > 0 && out[at - 1] > s
            invariant
                at <= out@.len(),
                forall|i: int| at <= i < out@.len() ==> #[trigger] out@[i] > s,
            decreases at,
        {
            at = at - 1;
        }
        if at == 0 || out[at - 1] != s {
            out.insert(at, s);
            proof {
                assert(out@[at as int] == s);
                assert forall|i: int| 0 <= i < k + 1 implies out@.contains(
                    #[trigger] stripes@[i],
                ) by {
                    if i < k {
                        let n = choose|n: int| 0 <= n < was.len() && was[n] == stripes@[i];
                        if n < at {
                            assert(out@[n] == was[n]);
                        } else {
                            assert(out@[n + 1] == was[n]);
                        }
                    }
                }
                assert forall|i: int, j: int| 0 <= i < j < out@.len() implies #[trigger] out@[i]
                    < #[trigger] out@[j] by {
                    if i < at {
                        assert(out@[i] == was[i]);
                        assert(was[i] <= was[at - 1]);
                    }
                    if i > at {
                        assert(out@[i] == was[i - 1]);
                    }
                    if j < at {
                        assert(out@[j] == was[j]);
                    }
                    if j > at {
                        assert(out@[j] == was[j - 1]);
                    }
                }
            }
        } else {
            assert(out@[at - 1] == s);
        }
        k = k + 1;
    }
    assert forall|s: usize| stripes@.contains(s) implies out@.contains(s) by {
        let i = choose|i: int| 0 <= i < stripes@.len() && stripes@[i] == s;
        assert(out@.contains(stripes@[i]));
    }
    out
}

/// `set` holds what `stripes` holds, all of them stripes.
pub open spec fn collects(stripes: Seq<usize>, set: Seq<usize>) -> bool {
    &&& forall|i: int| 0 <= i < stripes.len() ==> #[trigger] stripes[i] < WRITE_STRIPES
    &&& forall|s: usize| set.contains(s) <==> stripes.contains(s)
}

/// The stripes that a batch touches, each once and in ascending order.
pub fn put_many_stripes(keys: &Vec<Vec<u8>>) -> (r: Vec<usize>)
    ensures
        forall|i: int, j: int| 0 <= i < j < r@.len() ==> #[trigger] r@[i] < #[trigger] r@[j],
        exists|stripes: Seq<usize>|
            stripes.len() == keys@.len() && #[trigger] collects(stripes, r@) && forall|i: int|
                0 <= i < keys@.len() ==> striped(keys@[i]@, #[trigger] stripes[i]),
{
    let mut stripes: Vec<usize> = Vec::new();
    let mut i: usize = 0;
    while i < keys.len()
        invariant
            i <= keys@.len(),
            stripes@.len() == i,
            forall|j: int| 0 <= j < i ==> #[trigger] stripes@[j] < WRITE_STRIPES,
            forall|j: int| 0 <= j < i ==> striped(keys@[j]@, #[trigger] stripes@[j]),
        decreases keys@.len() - i,
    {
        stripes.push(stripe_idx(keys[i].as_slice()));
        i = i + 1;
    }
    let set = stripe_set(&stripes);
    assert(collects(stripes@, set@));
    set
}

/// The records of several puts, one behind the other.
pub open spec fn batch_bytes(puts: Seq<PendingPut>, values: Seq<Seq<u8>>) -> Seq<u8>
    decreases puts.len(),
{
    if puts.len() == 0 {
        seq![]
    } else {
        batch_bytes(puts.drop_last(), values.drop_last()) + put_bytes(
            puts.last(),
            values.last(),
            seq![],
        )
    }
}

/// The batch holds the records of its puts, with these values, and says where each one stands.
pub open spec fn batch_holds(b: Batch, values: Seq<Seq<u8>>) -> bool {
    &&& values.len() == b.puts@.len()
    &&& b.layout@.len() == b.puts@.len()
    &&& b.buf@ == batch_bytes(b.puts@, values)
    &&& forall|i: int|
        0 <= i < b.puts@.len() ==> (#[trigger] b.layout@[i]).0 == batch_bytes(
            b.puts@.take(i),
            values.take(i),
        ).len() && b.layout@[i].1 == put_bytes(b.puts@[i], values[i], seq![]).len()
    &&& forall|i: int|
        0 <= i < b.puts@.len() ==> fits(
            (#[trigger] b.puts@[i]).key@,
            stored(b.puts@[i].hash, values[i]),
            seq![],
        )
}

impl Batch {
    /// Each record lies within the buffer.
    pub open spec fn wf(&self) -> bool {
        &&& self.layout@.len() == self.puts@.len()
        &&& forall|i: int|
            0 <= i < self.layout@.len() ==> (#[trigger] self.layout@[i]).0 + self.layout@[i].1
                <= self.buf@.len()
    }

    pub fn new() -> (r: Batch)
        ensures
            r.wf(),
            r.puts@.len() == 0,
            batch_holds(r, seq![]),
    {
        Batch { puts: Vec::new(), layout: Vec::new(), buf: Vec::new() }
    }

    /// Adds the record of a put that was started with `value`, once its blob is durable.
    pub fn add(&mut self, p: PendingPut, value: &[u8]) -> (r: Result<()>)
        requires
            old(self).wf(),
        ensures
            final(self).wf(),
            fits(p.key@, stored(p.hash, value@), seq![]) ==> {
                &&& r == Ok::<(), EngineError>(())
                &&& final(self).puts@ == old(self).puts@.push(p)
                &&& final(self).buf@ == old(self).buf@ + put_bytes(p, value@, seq![])
                &&& final(self).layout@ == old(self).layout@.push(
                    (
                        old(self).buf@.len() as u64,
                        put_bytes(p, value@, seq![]).len() as u32,
                    ),
                )
                &&& forall|values: Seq<Seq<u8>>| #[trigger]
                    batch_holds(*old(self), values) ==> batch_holds(
                        *final(self),
                        values.push(value@),
                    )
            },
            !fits(p.key@, stored(p.hash, value@), seq![]) ==> r == Err::<(), EngineError>(
                EngineError::BadRecord { offset: 0, reason: "record exceeds 4 GiB limit" },
            ) && final(self).puts@ == old(self).puts@ && final(self).buf@ == old(self).buf@
                && final(self).layout@ == old(self).layout@,
    {
        let empty: Vec<u8> = Vec::new();
        let exp: u64 = match p.expires_at_ms {
            Some(ms) => ms,
            None => 0,
        };
        let start: usize = self.buf.len();
        let ghost rec = put_bytes(p, value@, seq![]);
        assert(empty@ =~= seq![]);
        let encoded = match &p.hash {
            Some(h) => encode_into(
                &mut self.buf,
                p.tstamp,
                p.flags,
                exp,
                p.key.as_slice(),
                h.as_slice(),
                empty.as_slice(),
            ),
            None => encode_into(
                &mut self.buf,
                p.tstamp,
                p.flags,
                exp,
                p.key.as_slice(),
                value,
                empty.as_slice(),
            ),
        };
        match encoded {
            Ok(()) => {},
            Err(e) => {
                return Err(e);
            },
        }
        proof {
            lemma_record_len(p.tstamp, p.flags, exp, p.key@, stored(p.hash, value@), seq![]);
        }
        let size: u32 = (self.buf.len() - start) as u32;
        self.layout.push((start as u64, size));
        self.puts.push(p);
        proof {
            assert forall|values: Seq<Seq<u8>>| #[trigger]
                batch_holds(*old(self), values) implies batch_holds(
                *self,
                values.push(value@),
            ) by {
                let n = old(self).puts@.len() as int;
                let more = values.push(value@);
                assert(self.puts@.drop_last() =~= old(self).puts@);
                assert(more.drop_last() =~= values);
                assert forall|i: int| 0 <= i < self.puts@.len() implies (
                #[trigger] self.layout@[i]).0 == batch_bytes(self.puts@.take(i), more.take(i)).len()
                    && self.layout@[i].1 == put_bytes(self.puts@[i], more[i], seq![]).len() by {
                    assert(self.puts@.take(i) =~= old(self).puts@.take(i));
                    assert(more.take(i) =~= values.take(i));
                    if i < n {
                        assert(self.layout@[i] == old(self).layout@[i]);
                    } else {
                        assert(old(self).puts@.take(n) =~= old(self).puts@);
                        assert(values.take(n) =~= values);
                    }
                }
                assert forall|i: int| 0 <= i < self.puts@.len() implies fits(
                    (#[trigger] self.puts@[i]).key@,
                    stored(self.puts@[i].hash, more[i]),
                    seq![],
                ) by {
                    if i < n {
                        assert(self.puts@[i] == old(self).puts@[i]);
                    }
                }
            }
        }
        Ok(())
    }
}

/// The references of several puts, taken back.
pub open spec fn unref_all(vals: ValueView, puts: Seq<PendingPut>) -> ValueView
    decreases puts.len(),
{
    if puts.len() == 0 {
        vals
    } else {
        unref_all(vals, puts.drop_last()).unref_opt(puts.last().hash)
    }
}

/// The index behind the first `n` puts of a batch whose records were written from `base` on.
pub open spec fn batch_index(idx: IndexView, b: Batch, n: int, file_id: u32, base: u64) -> IndexView
    decreases n,
{
    if n <= 0 {
        idx
    } else {
        put_index(
            batch_index(idx, b, n - 1, file_id, base),
            b.puts@[n - 1],
            file_id,
            (base + b.layout@[n - 1].0) as u64,
            b.layout@[n - 1].1,
        )
    }
}

/// The blob references behind the first `n` puts of a batch: each takes away the one of the blob
/// that its key referred to before.
pub open spec fn batch_values(
    idx: IndexView,
    vals: ValueView,
    b: Batch,
    n: int,
    file_id: u32,
    base: u64,
) -> ValueView
    decreases n,
{
    if n <= 0 {
        vals
    } else {
        batch_values(idx, vals, b, n - 1, file_id, base).unref_opt(
            batch_index(idx, b, n - 1, file_id, base).valsep_of(b.puts@[n - 1].key@),
        )
    }
}

impl NamespaceLog {
    fn unref_puts(&mut self, puts: &Vec<PendingPut>)
        requires
            old(self).wf(),
        ensures
            final(self).wf(),
            final(self)@ == (LogView {
                values: unref_all(old(self)@.values, puts@),
                ..old(self)@
            }),
    {
        let mut i: usize = 0;
        assert(puts@.take(0) =~= seq![]);
        while i < puts.len()
            invariant
                i <= puts@.len(),
                self.wf(),
                self@ == (LogView {
                    values: unref_all(old(self)@.values, puts@.take(i as int)),
                    ..old(self)@
                }),
            decreases puts@.len() - i,
        {
            self.values.unref_opt(puts[i].hash);
            assert(puts@.take(i + 1).drop_last() =~= puts@.take(i as int));
            i = i + 1;
        }
        assert(puts@.take(i as int) =~= puts@);
    }

    /// Coalesces many puts into a single append: reserves its place. Each put was started with
    /// `put_full`, without an expiry, and added to the batch.
    pub fn put_many(&mut self, batch: &Batch) -> (r: Result<Place>)
        requires
            old(self).wf(),
            old(self)@.room_for(batch.buf@.len() as int),
        ensures
            final(self).wf(),
            match r {
                Ok(place) => reserved(
                    old(self)@,
                    batch.buf@.len() as int,
                    Ok(place),
                    final(self)@,
                ),
                Err(e) => old(self)@.active.poisoned && e == (EngineError::Io {
                    reason: "log file poisoned after prior write error",
                }) && final(self)@ == (LogView {
                    values: unref_all(old(self)@.values, batch.puts@),
                    ..old(self)@
                }),
            },
    {
        match self.reserve(batch.buf.len()) {
            Ok(place) => Ok(place),
            Err(e) => {
                self.unref_puts(&batch.puts);
                Err(e)
            },
        }
    }

    /// Gives up a batch whose records could not be written: every blob reference that it took is
    /// taken back.
    pub fn put_many_failed(&mut self, batch: &Batch, place: &Place)
        requires
            old(self).wf(),
        ensures
            final(self).wf(),
            final(self)@ == (LogView {
                values: unref_all(old(self)@.values, batch.puts@),
                ..poisoned(old(self)@, place.file_id)
            }),
    {
        self.append_failed(place);
        self.unref_puts(&batch.puts);
    }

    /// Commits a batch whose records were written. The result is the revision of each put, in
    /// order, and whether the active file is to be rotated now.
    pub fn put_many_done(&mut self, batch: &Batch, place: &Place) -> (r: (Vec<u64>, bool))
        requires
            old(self).wf(),
            batch.wf(),
            place.len == batch.buf@.len(),
            place.offset + place.len <= u64::MAX,
            old(self)@.unsynced_bytes + place.len <= u64::MAX,
        ensures
            final(self).wf(),
            final(self)@ == (LogView {
                unsynced_bytes: (old(self)@.unsynced_bytes + place.len) as u64,
                index: batch_index(
                    old(self)@.index,
                    *batch,
                    batch.puts@.len() as int,
                    place.file_id,
                    place.offset,
                ),
                values: batch_values(
                    old(self)@.index,
                    old(self)@.values,
                    *batch,
                    batch.puts@.len() as int,
                    place.file_id,
                    place.offset,
                ),
                ..old(self)@
            }),
            r.0@.len() == batch.puts@.len(),
            forall|i: int| 0 <= i < r.0@.len() ==> #[trigger] r.0@[i] == batch.puts@[i].tstamp,
            r.1 == calls_for_rotation(old(self)@, place.file_id),
    {
        self.unsynced_bytes = self.unsynced_bytes + place.len;
        let mut tstamps: Vec<u64> = Vec::new();
        let mut i: usize = 0;
        while i < batch.puts.len()
            invariant
                batch.wf(),
                place.len == batch.buf@.len(),
                place.offset + place.len <= u64::MAX,
                i <= batch.puts@.len(),
                tstamps@.len() == i,
                forall|j: int| 0 <= j < i ==> #[trigger] tstamps@[j] == batch.puts@[j].tstamp,
                self.wf(),
                self@ == (LogView {
                    unsynced_bytes: (old(self)@.unsynced_bytes + place.len) as u64,
                    index: batch_index(
                        old(self)@.index,
                        *batch,
                        i as int,
                        place.file_id,
                        place.offset,
                    ),
                    values: batch_values(
                        old(self)@.index,
                        old(self)@.values,
                        *batch,
                        i as int,
                        place.file_id,
                        place.offset,
                    ),
                    ..old(self)@
                }),
            decreases batch.puts@.len() - i,
        {
            let (start, size) = batch.layout[i];
            assert(batch.layout@[i as int].0 + batch.layout@[i as int].1 <= batch.buf@.len());
            self.apply_valsep_insert(&batch.puts[i], place.file_id, place.offset + start, size);
            tstamps.push(batch.puts[i].tstamp);
            i = i + 1;
        }
        (tstamps, self.rotation_due(place.file_id))
    }

    /// Starts a deletion: drops the key from the index. Nothing is started for a key that is not
    /// there. `now` is the clock.
    pub fn tombstone(&mut self, key: &[u8], now: u64) -> (r: Option<PendingTombstone>)
        requires
            old(self).wf(),
            old(self)@.last_tstamp < u64::MAX,
        ensures
            final(self).wf(),
            match r {
                Some(p) => old(self)@.index.map.dom().contains(key@) && entombed(
                    old(self)@,
                    key@,
                    now,
                    p,
                    final(self)@,
                ),
                None => !old(self)@.index.map.dom().contains(key@) && final(self)@
                    == (LogView { index: old(self)@.index.remove(key@), ..old(self)@ }),
            },
    {
        let hash = self.index.valsep(key);
        if self.index.remove(key).is_none() {
            return None;
        }
        let tstamp: u64 = self.next_tstamp(now);
        Some(PendingTombstone { key: bytes::to_owned(key), tstamp, hash })
    }

    /// Starts a conditional deletion: only if the live revision of `key` at `now` is
    /// `expected_rev`. Check and removal are one step, so nothing can come between them. `clock` is
    /// the clock for the revision.
    pub fn tombstone_cond(&mut self, key: &[u8], expected_rev: u64, now: u64, clock: u64) -> (r:
        Option<PendingTombstone>)
        requires
            old(self).wf(),
            old(self)@.last_tstamp < u64::MAX,
        ensures
            final(self).wf(),
            match r {
                Some(p) => live_revision(old(self)@.index, key@, now) == Some(expected_rev)
                    && entombed(old(self)@, key@, clock, p, final(self)@),
                None => live_revision(old(self)@.index, key@, now) != Some(expected_rev)
                    && final(self)@ == old(self)@,
            },
    {
        let matched = match self.live_rev(key, now) {
            Some(rev) => rev == expected_rev,
            None => false,
        };
        if !matched {
            return None;
        }
        self.tombstone(key, clock)
    }

    /// Makes a record without a value and reserves its place.
    fn bare_record(&mut self, tstamp: u64, flags: u8, exp: u64, key: &[u8]) -> (r: Result<
        (Place, Vec<u8>),
    >)
        requires
            old(self).wf(),
            old(self)@.room_for(u32::MAX as int),
        ensures
            final(self).wf(),
            bare_reserved(old(self)@, tstamp, flags, exp, key@, r, final(self)@),
    {
        let empty: Vec<u8> = Vec::new();
        assert(empty@ =~= seq![]);
        let bytes = match encode(tstamp, flags, exp, key, empty.as_slice(), empty.as_slice()) {
            Ok(b) => b,
            Err(e) => {
                return Err(e);
            },
        };
        proof {
            lemma_record_len(tstamp, flags, exp, key@, seq![], seq![]);
        }
        match self.reserve(bytes.len()) {
            Ok(place) => Ok((place, bytes)),
            Err(e) => Err(e),
        }
    }

    /// Makes the record of a deletion and reserves its place.
    pub fn tombstone_record(&mut self, p: &PendingTombstone) -> (r: Result<(Place, Vec<u8>)>)
        requires
            old(self).wf(),
            old(self)@.room_for(u32::MAX as int),
        ensures
            final(self).wf(),
            bare_reserved(old(self)@, p.tstamp, TOMBSTONE, 0, p.key@, r, final(self)@),
    {
        self.bare_record(p.tstamp, TOMBSTONE, 0, p.key.as_slice())
    }

    /// Commits a deletion whose record was written: the key's blob loses its reference.
    pub fn tombstone_done(&mut self, p: &PendingTombstone, place: &Place) -> (r: u64)
        requires
            old(self).wf(),
            old(self)@.unsynced_bytes + place.len <= u64::MAX,
        ensures
            final(self).wf(),
            r == p.tstamp,
            final(self)@ == (LogView {
                unsynced_bytes: (old(self)@.unsynced_bytes + place.len) as u64,
                values: old(self)@.values.unref_opt(p.hash),
                ..old(self)@
            }),
    {
        self.unsynced_bytes = self.unsynced_bytes + place.len;
        self.values.unref_opt(p.hash);
        p.tstamp
    }

    /// Starts a change of a key's expiry. `now` is the clock.
    pub fn ttl_update(&mut self, key: &[u8], expires_at_ms: Option<u64>, now: u64) -> (p: PendingTtl)
        requires
            old(self).wf(),
            old(self)@.last_tstamp < u64::MAX,
        ensures
            final(self).wf(),
            p.key@ == key@,
            p.expires_at_ms == expires_at_ms,
            p.tstamp == next_revision(old(self)@.last_tstamp, now),
            final(self)@ == (LogView { last_tstamp: p.tstamp, ..old(self)@ }),
    {
        let tstamp: u64 = self.next_tstamp(now);
        PendingTtl { key: bytes::to_owned(key), tstamp, expires_at_ms }
    }

    /// Makes the record of a change of expiry and reserves its place.
    pub fn ttl_record(&mut self, p: &PendingTtl) -> (r: Result<(Place, Vec<u8>)>)
        requires
            old(self).wf(),
            old(self)@.room_for(u32::MAX as int),
        ensures
            final(self).wf(),
            bare_reserved(
                old(self)@,
                p.tstamp,
                ttl_flags(p.expires_at_ms),
                expiry_field(p.expires_at_ms),
                p.key@,
                r,
                final(self)@,
            ),
    {
        match p.expires_at_ms {
            Some(ms) => self.bare_record(p.tstamp, TTL_UPDATE, ms, p.key.as_slice()),
            None => self.bare_record(p.tstamp, TTL_UPDATE | NO_EXPIRY, 0, p.key.as_slice()),
        }
    }

    /// Commits a change of expiry whose record was written: only the sidecar changes.
    pub fn ttl_done(&mut self, p: &PendingTtl, place: &Place) -> (r: u64)
        requires
            old(self).wf(),
            old(self)@.unsynced_bytes + place.len <= u64::MAX,
        ensures
            final(self).wf(),
            r == p.tstamp,
            final(self)@ == (LogView {
                unsynced_bytes: (old(self)@.unsynced_bytes + place.len) as u64,
                index: old(self)@.index.set_ttl(p.key@, p.expires_at_ms),
                ..old(self)@
            }),
    {
        self.unsynced_bytes = self.unsynced_bytes + place.len;
        self.index.set_ttl(p.key.as_slice(), p.expires_at_ms);
        p.tstamp
    }
}

/// The state with a deletion under way, given the state before, and the deletion: the key is gone
/// from the index, and the deletion has taken a revision.
pub open spec fn entombed(
    s: LogView,
    key: Seq<u8>,
    clock: u64,
    p: PendingTombstone,
    t: LogView,
) -> bool {
    &&& p.key@ == key
    &&& p.hash == s.index.valsep_of(key)
    &&& p.tstamp == next_revision(s.last_tstamp, clock)
    &&& t == (LogView { index: s.index.remove(key), last_tstamp: p.tstamp, ..s })
}

/// The flags of a record that changes an expiry.
pub open spec fn ttl_flags(expires_at_ms: Option<u64>) -> u8 {
    if expires_at_ms is None {
        TTL_UPDATE | NO_EXPIRY
    } else {
        TTL_UPDATE
    }
}

/// The outcome of making a record without a value in state `s`, and the state behind it.
pub open spec fn bare_reserved(
    s: LogView,
    tstamp: u64,
    flags: u8,
    exp: u64,
    key: Seq<u8>,
    r: Result<(Place, Vec<u8>)>,
    t: LogView,
) -> bool {
    if !fits(key, seq![], seq![]) {
        t == s && r == Err::<(Place, Vec<u8>), EngineError>(
            EngineError::BadRecord { offset: 0, reason: "record exceeds 4 GiB limit" },
        )
    } else {
        match r {
            Ok((place, b)) => b@ == record_bytes(tstamp, flags, exp, key, seq![], seq![])
                && reserved(s, b@.len() as int, Ok(place), t),
            Err(e) => reserved(s, 0, Err(e), t) && s.active.poisoned,
        }
    }
}

/// A committed put is what recovery finds: where the replay of the active file gives an index, the
/// replay of the file with the put's record behind it gives the index that the commit leaves.
pub proof fn lemma_put_replays(
    image: Seq<u8>,
    file_id: u32,
    start: IndexView,
    p: PendingPut,
    value: Seq<u8>,
    metadata: Seq<u8>,
)
    requires
        replay(image, file_id, 0, start).1 == image.len(),
        fits(p.key@, stored(p.hash, value), metadata),
        p.flags == put_flags(p.expires_at_ms, p.hash is Some),
    ensures
        ({
            let rec = put_bytes(p, value, metadata);
            replay(image + rec, file_id, 0, start) == (
                put_index(
                    replay(image, file_id, 0, start).0,
                    p,
                    file_id,
                    image.len() as u64,
                    rec.len() as u32,
                ),
                (image.len() + rec.len()) as int,
            )
        }),
{
    let rec = put_bytes(p, value, metadata);
    let exp = expiry_field(p.expires_at_ms);
    let field = stored(p.hash, value);
    lemma_written_is_good(p.tstamp, p.flags, exp, p.key@, field, metadata);
    lemma_record_round_trip(p.tstamp, p.flags, exp, p.key@, field, metadata);
    lemma_replay_append(image, rec, file_id, 0, start);
    let h = header_at(rec);
    let body = rec.skip(HEADER_LEN as int);
    assert(body.take(h.key_size as int) =~= p.key@);
    lemma_put_flag_bits(p.expires_at_ms is None, p.hash is Some);
    if let Some(g) = p.hash {
        assert(body.subrange(h.key_size as int, h.key_size + 16) =~= g@);
        lemma_hash_of(g);
    }
}

/// What the flags of a put say.
pub proof fn lemma_put_flag_bits(forever: bool, separated: bool)
    ensures
        ({
            let a = if forever {
                NO_EXPIRY
            } else {
                0
            };
            let b = if separated {
                VALUE_SEP
            } else {
                0
            };
            let f = a | b;
            &&& f & TOMBSTONE == 0
            &&& f & TTL_UPDATE == 0
            &&& (f & NO_EXPIRY != 0) == forever
            &&& (f & VALUE_SEP != 0) == separated
        }),
{
    assert((0u8 | 0u8) & 1u8 == 0 && (0u8 | 0u8) & 4u8 == 0 && (0u8 | 0u8) & 2u8 == 0 && (0u8 | 0u8)
        & 8u8 == 0) by (bit_vector);
    assert((2u8 | 0u8) & 1u8 == 0 && (2u8 | 0u8) & 4u8 == 0 && (2u8 | 0u8) & 2u8 != 0 && (2u8 | 0u8)
        & 8u8 == 0) by (bit_vector);
    assert((0u8 | 8u8) & 1u8 == 0 && (0u8 | 8u8) & 4u8 == 0 && (0u8 | 8u8) & 2u8 == 0 && (0u8 | 8u8)
        & 8u8 != 0) by (bit_vector);
    assert((2u8 | 8u8) & 1u8 == 0 && (2u8 | 8u8) & 4u8 == 0 && (2u8 | 8u8) & 2u8 != 0 && (2u8 | 8u8)
        & 8u8 != 0) by (bit_vector);
}

/// A committed batch is what recovery finds.
pub proof fn lemma_batch_replays(
    image: Seq<u8>,
    file_id: u32,
    start: IndexView,
    b: Batch,
    values: Seq<Seq<u8>>,
    n: int,
)
    requires
        replay(image, file_id, 0, start).1 == image.len(),
        batch_holds(b, values),
        0 <= n <= b.puts@.len(),
        image.len() + b.buf@.len() <= u64::MAX,
        forall|i: int|
            0 <= i < b.puts@.len() ==> (#[trigger] b.puts@[i]).flags == put_flags(
                b.puts@[i].expires_at_ms,
                b.puts@[i].hash is Some,
            ),
    ensures
        ({
            let written = batch_bytes(b.puts@.take(n), values.take(n));
            replay(image + written, file_id, 0, start) == (
                batch_index(
                    replay(image, file_id, 0, start).0,
                    b,
                    n,
                    file_id,
                    image.len() as u64,
                ),
                (image.len() + written.len()) as int,
            )
        }),
    decreases n,
{
    let written = batch_bytes(b.puts@.take(n), values.take(n));
    if n == 0 {
        assert(image + written =~= image);
    } else {
        lemma_batch_replays(image, file_id, start, b, values, n - 1);
        let before = batch_bytes(b.puts@.take(n - 1), values.take(n - 1));
        assert(b.puts@.take(n).drop_last() =~= b.puts@.take(n - 1));
        assert(values.take(n).drop_last() =~= values.take(n - 1));
        let p = b.puts@[n - 1];
        let rec = put_bytes(p, values[n - 1], seq![]);
        assert(written == before + rec);
        assert(image + written =~= (image + before) + rec);
        assert(b.layout@[n - 1].0 == before.len());
        lemma_put_replays(image + before, file_id, start, p, values[n - 1], seq![]);
        lemma_batch_len(b, values, n - 1);
    }
}

proof fn lemma_batch_len(b: Batch, values: Seq<Seq<u8>>, n: int)
    requires
        batch_holds(b, values),
        0 <= n <= b.puts@.len(),
    ensures
        batch_bytes(b.puts@.take(n), values.take(n)).len() <= b.buf@.len(),
    decreases b.puts@.len() - n,
{
    if n == b.puts@.len() {
        assert(b.puts@.take(n) =~= b.puts@);
        assert(values.take(n) =~= values);
    } else {
        lemma_batch_len(b, values, n + 1);
        assert(b.puts@.take(n + 1).drop_last() =~= b.puts@.take(n));
        assert(values.take(n + 1).drop_last() =~= values.take(n));
    }
}

/// A committed deletion is what recovery finds.
pub proof fn lemma_tombstone_replays(
    image: Seq<u8>,
    file_id: u32,
    start: IndexView,
    tstamp: u64,
    key: Seq<u8>,
)
    requires
        replay(image, file_id, 0, start).1 == image.len(),
        fits(key, seq![], seq![]),
    ensures
        ({
            let rec = record_bytes(tstamp, TOMBSTONE, 0, key, seq![], seq![]);
            replay(image + rec, file_id, 0, start) == (
                replay(image, file_id, 0, start).0.remove(key),
                (image.len() + rec.len()) as int,
            )
        }),
{
    let rec = record_bytes(tstamp, TOMBSTONE, 0, key, seq![], seq![]);
    lemma_written_is_good(tstamp, TOMBSTONE, 0, key, seq![], seq![]);
    lemma_record_round_trip(tstamp, TOMBSTONE, 0, key, seq![], seq![]);
    lemma_replay_append(image, rec, file_id, 0, start);
    assert(1u8 & 1u8 != 0) by (bit_vector);
    assert(rec.skip(HEADER_LEN as int).take(key.len() as int) =~= key);
}

/// A committed change of expiry of a key that is there is what recovery finds.
pub proof fn lemma_ttl_replays(
    image: Seq<u8>,
    file_id: u32,
    start: IndexView,
    tstamp: u64,
    key: Seq<u8>,
    expires_at_ms: Option<u64>,
)
    requires
        replay(image, file_id, 0, start).1 == image.len(),
        replay(image, file_id, 0, start).0.map.dom().contains(key),
        fits(key, seq![], seq![]),
    ensures
        ({
            let rec = record_bytes(
                tstamp,
                ttl_flags(expires_at_ms),
                expiry_field(expires_at_ms),
                key,
                seq![],
                seq![],
            );
            replay(image + rec, file_id, 0, start) == (
                replay(image, file_id, 0, start).0.set_ttl(key, expires_at_ms),
                (image.len() + rec.len()) as int,
            )
        }),
{
    let flags = ttl_flags(expires_at_ms);
    let exp = expiry_field(expires_at_ms);
    let rec = record_bytes(tstamp, flags, exp, key, seq![], seq![]);
    lemma_written_is_good(tstamp, flags, exp, key, seq![], seq![]);
    lemma_record_round_trip(tstamp, flags, exp, key, seq![], seq![]);
    lemma_replay_append(image, rec, file_id, 0, start);
    assert(4u8 & 1u8 == 0 && 4u8 & 4u8 != 0 && 4u8 & 2u8 == 0) by (bit_vector);
    assert((4u8 | 2u8) & 1u8 == 0 && (4u8 | 2u8) & 4u8 != 0 && (4u8 | 2u8) & 2u8 != 0)
        by (bit_vector);
    assert(rec.skip(HEADER_LEN as int).take(key.len() as int) =~= key);
}

} // verus!
