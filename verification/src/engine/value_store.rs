//! Content-addressed value store (value separation, WiscKey-style) for large
//! values.
//!
//! A value is keyed by its BLAKE3-128 content hash and stored once; identical
//! values dedup to a single blob. The main log holds only the small
//! `(key -> hash)` pointer record, so compaction moves pointers, never large
//! values. Blobs are immutable and refcounted; a blob is unlinked when its last
//! reference drops. Refcounts are in memory, rebuilt from the live index on open;
//! `sweep_orphans` finds any blob that a crash left without a referencing record.
use vstd::prelude::*;
use vstd::string::StringExecFns;
use vstd::utf8::{encode_utf8, is_ascii_chars};

use crate::bytes;
use crate::engine::log::file::hash_at;
use crate::engine::log::recover::{hash_of, lemma_hash_of};
use crate::fx::FxMap;
use crate::text::{digit_char, fixed, lemma_fixed_len, push_fixed};

verus! {

/// BLAKE3-128 content hash.
pub type ContentHash = [u8; 16];

/// The BLAKE3 hash: 32 bytes.
pub uninterp spec fn blake3_256(data: Seq<u8>) -> Seq<u8>;

/// `blake3::hash`: the hash of `data`.
#[verifier::external_body]
fn blake3_hash(data: &[u8]) -> (r: [u8; 32])
    ensures
        r@ == blake3_256(data@),
{
    *blake3::hash(data).as_bytes()
}

/// The content hash of a value: the first half of its BLAKE3 hash.
pub open spec fn content(value: Seq<u8>) -> ContentHash {
    hash_of(blake3_256(value).take(16))
}

pub fn content_hash(value: &[u8]) -> (h: ContentHash)
    ensures
        h == content(value@),
        h@ == blake3_256(value@).take(16),
{
    let full = blake3_hash(value);
    let h = hash_at(full.as_slice(), 0);
    assert(h@ =~= blake3_256(value@).take(16));
    proof {
        lemma_hash_of(h);
    }
    h
}

/// Number of blob file-op stripes. Same-hash ops serialize; different hashes stay concurrent.
pub const FILE_LOCK_STRIPES: usize = 16;

/// The file-op stripe for a content hash: operations on the file of one blob share a stripe.
pub fn file_stripe(h: &ContentHash) -> (i: usize)
    ensures
        i == h@[0] % 16,
        i < FILE_LOCK_STRIPES,
{
    (h[0] % 16) as usize
}

/// The hexadecimal text of the first `n` bytes of a hash.
pub open spec fn hex(h: Seq<u8>, n: int) -> Seq<char>
    decreases n,
{
    if n <= 0 {
        seq![]
    } else {
        hex(h, n - 1) + fixed(h[n - 1] as nat, 16, 2)
    }
}

/// The name of the file that holds a blob.
pub open spec fn blob_name(h: Seq<u8>) -> Seq<char> {
    "blob-"@ + hex(h, 16)
}

/// The name of the file that holds the blob with this content hash.
pub fn blob_filename(h: &ContentHash) -> (r: String)
    ensures
        r@ == blob_name(h@),
{
    let mut s = String::from_str("blob-");
    let mut i: usize = 0;
    assert(s@ =~= "blob-"@ + hex(h@, 0));
    while i < 16
        invariant
            i <= 16,
            s@ == "blob-"@ + hex(h@, i as int),
        decreases 16 - i,
    {
        push_fixed(&mut s, h[i] as u64, 16, 2);
        assert(s@ =~= "blob-"@ + hex(h@, i + 1));
        i = i + 1;
    }
    s
}

/// The value of a hexadecimal digit, in either case.
pub open spec fn nibble(b: u8) -> Option<u8> {
    if 48 <= b <= 57 {
        Some((b - 48) as u8)
    } else if 97 <= b <= 102 {
        Some((b - 87) as u8)
    } else if 65 <= b <= 70 {
        Some((b - 55) as u8)
    } else {
        None
    }
}

/// All bytes are hexadecimal digits.
pub open spec fn all_hex(s: Seq<u8>) -> bool {
    forall|i: int| 0 <= i < s.len() ==> nibble(#[trigger] s[i]) is Some
}

/// The bytes that pairs of hexadecimal digits stand for.
pub open spec fn unhex(s: Seq<u8>) -> Seq<u8> {
    Seq::new(
        s.len() / 2,
        |i: int| (nibble(s[2 * i])->0 * 16 + nibble(s[2 * i + 1])->0) as u8,
    )
}

/// The content hash in the name of a blob file: `blob-` and 32 hexadecimal digits.
pub open spec fn blob_hash(name: Seq<u8>) -> Option<ContentHash> {
    if name.len() == 37 && name.take(5) == encode_utf8("blob-"@) && all_hex(name.skip(5)) {
        Some(hash_of(unhex(name.skip(5))))
    } else {
        None
    }
}

fn hex_digit(b: u8) -> (r: Option<u8>)
    ensures
        r == nibble(b),
        r matches Some(d) ==> d < 16,
{
    if b >= 48 && b <= 57 {
        Some(b - 48)
    } else if b >= 97 && b <= 102 {
        Some(b - 87)
    } else if b >= 65 && b <= 70 {
        Some(b - 55)
    } else {
        None
    }
}

/// Parse a `blob-<32 hex>` filename back into its content hash.
pub fn parse_blob_name(name: &[u8]) -> (r: Option<ContentHash>)
    ensures
        r == blob_hash(name@),
{
    if name.len() != 37 {
        return None;
    }
    let head = vstd::slice::slice_subrange(name, 0, 5);
    assert(head@ =~= name@.take(5));
    if !bytes::same(head, "blob-".as_bytes()) {
        return None;
    }
    let ghost digits = name@.skip(5);
    let mut h: [u8; 16] = [0u8; 16];
    let mut i: usize = 0;
    while i < 16
        invariant
            i <= 16,
            name@.len() == 37,
            digits == name@.skip(5),
            h@.len() == 16,
            forall|j: int| 0 <= j < 2 * i ==> nibble(#[trigger] digits[j]) is Some,
            forall|j: int| 0 <= j < i ==> #[trigger] h@[j] == unhex(digits)[j],
        decreases 16 - i,
    {
        assert(digits[2 * i] == name@[5 + 2 * i]);
        assert(digits[2 * i + 1] == name@[6 + 2 * i]);
        let hi: u8 = match hex_digit(name[5 + 2 * i]) {
            Some(d) => d,
            None => {
                return None;
            },
        };
        let lo: u8 = match hex_digit(name[6 + 2 * i]) {
            Some(d) => d,
            None => {
                return None;
            },
        };
        h[i] = hi * 16 + lo;
        i = i + 1;
    }
    assert(h@ =~= unhex(digits));
    proof {
        lemma_hash_of(h);
    }
    Some(h)
}

proof fn lemma_hex_len(h: Seq<u8>, n: int)
    requires
        0 <= n <= h.len(),
    ensures
        hex(h, n).len() == 2 * n,
    decreases n,
{
    if n > 0 {
        lemma_hex_len(h, n - 1);
        lemma_fixed_len(h[n - 1] as nat, 16, 2);
    }
}

/// Each byte is two hexadecimal digits, which stand for it.
proof fn lemma_hex_digits(h: Seq<u8>, n: int, i: int)
    requires
        0 <= i < n <= h.len(),
    ensures
        hex(h, n).len() == 2 * n,
        hex(h, n)[2 * i] == digit_char((h[i] / 16) as int),
        hex(h, n)[2 * i + 1] == digit_char((h[i] % 16) as int),
    decreases n,
{
    lemma_hex_len(h, n);
    lemma_hex_len(h, n - 1);
    lemma_fixed_len(h[n - 1] as nat, 16, 2);
    if i < n - 1 {
        lemma_hex_digits(h, n - 1, i);
    } else {
        let b = h[i] as nat;
        reveal_with_fuel(fixed, 3);
        assert(fixed(b, 16, 2) =~= seq![
            digit_char(((b / 16) % 16) as int),
            digit_char((b % 16) as int),
        ]);
        assert((b / 16) % 16 == b / 16);
    }
}

/// A blob's content hash is read back from the name of its file.
pub proof fn lemma_blob_name(h: ContentHash)
    ensures
        blob_hash(encode_utf8(blob_name(h@))) == Some(h),
{
    let name = blob_name(h@);
    lemma_hex_len(h@, 16);
    reveal_strlit("blob-");
    assert forall|i: int| 0 <= i < 16 implies {
        &&& name[5 + 2 * i] == digit_char((#[trigger] h@[i] / 16) as int)
        &&& name[6 + 2 * i] == digit_char((h@[i] % 16) as int)
    } by {
        lemma_hex_digits(h@, 16, i);
    }
    assert(is_ascii_chars(name)) by {
        assert forall|i: int| 0 <= i < name.len() implies '\0' <= #[trigger] name[i] <= '\u{7f}' by {
            if i >= 5 {
                let j = (i - 5) / 2;
                assert(0 <= j < 16);
                let b = h@[j];
                assert(i == 5 + 2 * j || i == 6 + 2 * j);
            }
        }
    }
    vstd::utf8::is_ascii_chars_encode_utf8(name);
    assert(is_ascii_chars("blob-"@));
    vstd::utf8::is_ascii_chars_encode_utf8("blob-"@);
    let b = encode_utf8(name);
    assert(b.take(5) =~= encode_utf8("blob-"@));
    let digits = b.skip(5);
    assert forall|i: int| 0 <= i < 16 implies {
        &&& nibble(digits[2 * i]) == Some((#[trigger] h@[i] / 16) as u8)
        &&& nibble(digits[2 * i + 1]) == Some((h@[i] % 16) as u8)
    } by {
        assert(name[5 + 2 * i] as u8 == b[5 + 2 * i]);
        assert(name[6 + 2 * i] as u8 == b[6 + 2 * i]);
    }
    assert(all_hex(digits)) by {
        assert forall|i: int| 0 <= i < digits.len() implies nibble(#[trigger] digits[i]) is Some by {
            let j = i / 2;
            let c = h@[j];
            assert(i == 2 * j || i == 2 * j + 1);
        }
    }
    assert(unhex(digits) =~= h@);
    lemma_hash_of(h);
}

/// What a value store keeps count of.
#[verifier::ext_equal]
pub struct ValueView {
    /// How often each blob is referenced, by content hash. A blob without references is not there.
    pub refs: Map<Seq<u8>, u64>,
    /// Blobs that lost their last reference and are still to be deleted.
    pub pending: Seq<ContentHash>,
}

impl ValueView {
    pub open spec fn empty() -> ValueView {
        ValueView { refs: Map::empty(), pending: seq![] }
    }

    pub open spec fn count(self, h: ContentHash) -> u64 {
        if self.refs.dom().contains(h@) {
            self.refs[h@]
        } else {
            0
        }
    }

    /// Every count can take one reference more.
    pub open spec fn has_room(self) -> bool {
        forall|h: Seq<u8>| #[trigger] self.refs.dom().contains(h) ==> self.refs[h] < u64::MAX
    }

    /// With one reference more.
    pub open spec fn inc(self, h: ContentHash) -> ValueView {
        ValueView { refs: self.refs.insert(h@, (self.count(h) + 1) as u64), ..self }
    }

    /// With one reference more for the hash, if there is a hash.
    pub open spec fn inc_opt(self, h: Option<ContentHash>) -> ValueView {
        match h {
            Some(h) => self.inc(h),
            None => self,
        }
    }

    /// With one reference less, if there is one.
    pub open spec fn dec(self, h: ContentHash) -> ValueView {
        ValueView {
            refs: if self.count(h) <= 1 {
                self.refs.remove(h@)
            } else {
                self.refs.insert(h@, (self.count(h) - 1) as u64)
            },
            ..self
        }
    }

    /// With one reference less; a blob that loses its last one is marked for deletion.
    pub open spec fn unref(self, h: ContentHash) -> ValueView {
        ValueView {
            pending: if self.count(h) == 1 {
                self.pending.push(h)
            } else {
                self.pending
            },
            ..self.dec(h)
        }
    }

    /// With one reference less for the hash, if there is a hash.
    pub open spec fn unref_opt(self, h: Option<ContentHash>) -> ValueView {
        match h {
            Some(h) => self.unref(h),
            None => self,
        }
    }
}

/// The reference counts of a content-addressed blob store.
pub struct ValueStore {
    refs: FxMap<u64>,
    /// Blobs whose refcount has hit zero but whose deletion is deferred until the
    /// next fsync. Deleting a superseded blob before the superseding log record is
    /// durable would, on a power loss that loses that record, leave the reverted-to
    /// key pointing at a deleted blob. Deferring past the fsync makes the revert safe.
    pending_delete: Vec<ContentHash>,
}

impl ValueStore {
    /// Every blob that is counted has a reference.
    pub closed spec fn wf(&self) -> bool {
        &&& self.refs.wf()
        &&& forall|h: Seq<u8>| #[trigger]
            self.refs@.dom().contains(h) ==> self.refs@[h] > 0
    }

    pub closed spec fn view(&self) -> ValueView {
        ValueView { refs: self.refs@, pending: self.pending_delete@ }
    }

    /// No blob is counted that has no reference.
    pub proof fn lemma_counted(&self, h: Seq<u8>)
        requires
            self.wf(),
            self@.refs.dom().contains(h),
        ensures
            self@.refs[h] > 0,
    {
    }

    pub fn new() -> (r: ValueStore)
        ensures
            r.wf(),
            r@ == ValueView::empty(),
    {
        let r = ValueStore { refs: FxMap::new(), pending_delete: Vec::new() };
        assert(r@ =~= ValueView::empty());
        r
    }

    /// Takes a reference to the blob of `value`, deduplicated by content. Returns its content hash
    /// and whether the blob is to be written: on the first reference only. The blob has to be
    /// durable before the record that points at it is written.
    pub fn put(&mut self, value: &[u8]) -> (r: (ContentHash, bool))
        requires
            old(self).wf(),
            old(self)@.has_room(),
        ensures
            final(self).wf(),
            r.0 == content(value@),
            r.1 == (old(self)@.count(r.0) == 0),
            final(self)@ == old(self)@.inc(r.0),
    {
        let h = content_hash(value);
        let first = self.refcount(&h) == 0;
        self.incr_ref(&h);
        (h, first)
    }

    /// Takes back the reference of a `put` whose blob could not be written.
    pub fn put_failed(&mut self, h: &ContentHash)
        requires
            old(self).wf(),
        ensures
            final(self).wf(),
            final(self)@ == old(self)@.dec(*h),
    {
        self.dec(h);
    }

    /// Recovery: counts the reference of a live index entry to a blob that is already on disk.
    pub fn incr_ref(&mut self, h: &ContentHash)
        requires
            old(self).wf(),
            old(self)@.has_room(),
        ensures
            final(self).wf(),
            final(self)@ == old(self)@.inc(*h),
    {
        let n: u64 = self.refcount(h);
        self.refs.insert(bytes::to_owned(h.as_slice()), n + 1);
        assert(self@ =~= old(self)@.inc(*h));
    }

    /// Decrements the refcount; returns true if it hit zero.
    fn dec(&mut self, h: &ContentHash) -> (dead: bool)
        requires
            old(self).wf(),
        ensures
            final(self).wf(),
            final(self)@ == old(self)@.dec(*h),
            dead == (old(self)@.count(*h) == 1),
    {
        let n: u64 = self.refcount(h);
        if n <= 1 {
            self.refs.remove(h.as_slice());
        } else {
            self.refs.insert(bytes::to_owned(h.as_slice()), n - 1);
        }
        assert(self@ =~= old(self)@.dec(*h));
        n == 1
    }

    /// Drop one reference. When the last reference goes away the blob is NOT
    /// deleted immediately — it is queued until the next fsync. This preserves the
    /// crash-consistency invariant: a blob is only physically removed once the log
    /// record that superseded it is durable.
    pub fn unref(&mut self, h: &ContentHash)
        requires
            old(self).wf(),
        ensures
            final(self).wf(),
            final(self)@ == old(self)@.unref(*h),
    {
        if self.dec(h) {
            self.pending_delete.push(*h);
        }
        assert(self@ =~= old(self)@.unref(*h));
    }

    /// Drops one reference for the hash, if there is a hash.
    pub fn unref_opt(&mut self, h: Option<ContentHash>)
        requires
            old(self).wf(),
        ensures
            final(self).wf(),
            final(self)@ == old(self)@.unref_opt(h),
    {
        if let Some(h) = h {
            self.unref(&h);
        }
    }

    /// Hands out the queue of blobs to delete; each is to be deleted only if it has no reference
    /// by then. MUST be called only after the log has been fsynced past the records that orphaned
    /// these blobs.
    pub fn collect_garbage(&mut self) -> (r: Vec<ContentHash>)
        requires
            old(self).wf(),
        ensures
            final(self).wf(),
            r@ == old(self)@.pending,
            final(self)@ == (ValueView { pending: seq![], ..old(self)@ }),
    {
        let mut taken: Vec<ContentHash> = Vec::new();
        taken.append(&mut self.pending_delete);
        assert(taken@ =~= old(self)@.pending);
        assert(self@ =~= (ValueView { pending: seq![], ..old(self)@ }));
        taken
    }

    /// Whether a blob that was queued for deletion is to be deleted now: it may have been referenced
    /// again by an identical-content write in the meantime.
    pub fn is_garbage(&self, h: &ContentHash) -> (r: bool)
        requires
            self.wf(),
        ensures
            r == (self@.count(*h) == 0),
    {
        self.refcount(h) == 0
    }

    /// Drop all blobs and refcounts (FLUSHDB).
    pub fn clear(&mut self)
        ensures
            final(self).wf(),
            final(self)@ == ValueView::empty(),
    {
        self.refs.clear();
        self.pending_delete.clear();
        assert(self@ =~= ValueView::empty());
    }

    /// The file with this name is a blob that no live key references.
    pub open spec fn orphan(refs: Map<Seq<u8>, u64>, name: Seq<u8>) -> bool {
        blob_hash(name) matches Some(h) && !refs.dom().contains(h@)
    }

    /// Finds orphan blobs: of the names of the files in the blob directory, the places of those
    /// that no live key references. A crash between writing a blob and appending its log record
    /// (or between writing a new blob and unref'ing the old one) leaves such a file. To be asked
    /// after the refcounts have been rebuilt from the live index.
    pub fn sweep_orphans(&self, names: &Vec<Vec<u8>>) -> (r: Vec<usize>)
        requires
            self.wf(),
        ensures
            forall|i: int, j: int| 0 <= i < j < r@.len() ==> #[trigger] r@[i] < #[trigger] r@[j],
            forall|i: int|
                0 <= i < r@.len() ==> #[trigger] r@[i] < names@.len() && Self::orphan(
                    self@.refs,
                    names@[r@[i] as int]@,
                ),
            forall|k: int|
                0 <= k < names@.len() && Self::orphan(
                    self@.refs,
                    (#[trigger] names@[k])@,
                ) ==> exists|i: int| 0 <= i < r@.len() && #[trigger] r@[i] == k,
    {
        let mut out: Vec<usize> = Vec::new();
        let mut k: usize = 0;
        while k < names.len()
            invariant
                self.wf(),
                k <= names@.len(),
                forall|i: int, j: int|
                    0 <= i < j < out@.len() ==> #[trigger] out@[i] < #[trigger] out@[j],
                forall|i: int|
                    0 <= i < out@.len() ==> #[trigger] out@[i] < k && Self::orphan(
                        self@.refs,
                        names@[out@[i] as int]@,
                    ),
                forall|q: int|
                    0 <= q < k && Self::orphan(self@.refs, (#[trigger] names@[q])@) ==> exists|
                        i: int,
                    |
                        0 <= i < out@.len() && #[trigger] out@[i] == q,
            decreases names@.len() - k,
        {
            let ghost was = out@;
            match parse_blob_name(names[k].as_slice()) {
                Some(h) => {
                    if !self.refs.contains(h.as_slice()) {
                        out.push(k);
                        proof {
                            assert(out@[was.len() as int] == k);
                            assert forall|q: int|
                                0 <= q < k + 1 && Self::orphan(
                                    self@.refs,
                                    (#[trigger] names@[q])@,
                                ) implies exists|i: int|
                                0 <= i < out@.len() && #[trigger] out@[i] == q by {
                                if q < k {
                                    let i = choose|i: int|
                                        0 <= i < was.len() && #[trigger] was[i] == q;
                                    assert(out@[i] == q);
                                }
                            }
                        }
                    }
                },
                None => {},
            }
            k = k + 1;
        }
        out
    }

    pub fn blob_count(&self) -> (n: usize)
        requires
            self.wf(),
        ensures
            n == self@.refs.dom().len(),
    {
        self.refs.len()
    }

    pub fn refcount(&self, h: &ContentHash) -> (n: u64)
        requires
            self.wf(),
        ensures
            n == self@.count(*h),
    {
        match self.refs.get(h.as_slice()) {
            Some(n) => *n,
            None => 0,
        }
    }
}

} // verus!
