//! The keys of a benchmark.
//!
//! When there are several shards, the keyspace is filtered to the keys that
//! route to one of them under the server's routing function
//! (`FxHasher(key) % N`). This lets a driver send each connection only the keys
//! that belong to that connection's shard, so every shard owns its slice of the
//! dataset and its L1 cache covers it fully.
use std::hash::Hasher;

use vstd::prelude::*;
use vstd::string::StringExecFns;
use vstd::utf8::encode_utf8;

use crate::bench::error::BenchError;
use crate::bytes;
use crate::text::{fixed, push_fixed};

verus! {

/// The key with this index: `k:` and 16 hexadecimal digits.
pub open spec fn key_text(idx: u64) -> Seq<char> {
    "k:"@ + fixed(idx as nat, 16, 16)
}

/// Makes the key with this index. Fixed-width hex keeps key length stable across a run.
pub fn format_key(idx: u64) -> (r: Vec<u8>)
    ensures
        r@ == encode_utf8(key_text(idx)),
{
    let mut s = String::from_str("k:");
    push_fixed(&mut s, idx, 16, 16);
    bytes::to_owned(s.as_str().as_bytes())
}

/// `rustc_hash::FxHasher` fed with a byte slice through `Hasher::write`. Nothing is claimed of the
/// number: it differs from one kind of machine to another.
#[verifier::external_body]
pub(crate) fn fx_hash(key: &[u8]) -> (r: u64) {
    let mut h = rustc_hash::FxHasher::default();
    h.write(key);
    h.finish()
}

/// The hasher may give this number for the key.
pub closed spec fn hashes_to(key: Seq<u8>, hash: u64) -> bool {
    exists|k: &[u8]| k@ == key && #[trigger] call_ensures(fx_hash, (k,), hash)
}

/// A number stands for a key only where the hasher gives it for the key's bytes.
pub(crate) proof fn lemma_hash_is_the_hashers(key: Seq<u8>, hash: u64)
    requires
        hashes_to(key, hash),
    ensures
        exists|k: &[u8]| k@ == key && #[trigger] call_ensures(fx_hash, (k,), hash),
{
}

/// Asks a hasher for the number of a key.
fn hashed<F: Fn(&[u8]) -> u64>(hasher: F, key: &[u8]) -> (r: u64)
    requires
        call_requires(hasher, (key,)),
    ensures
        call_ensures(hasher, (key,), r),
{
    hasher(key)
}

/// A key with this hash routes to the shard.
pub open spec fn routes_to(hash: u64, shard_index: usize, num_shards: usize) -> bool {
    (hash as usize) % num_shards == shard_index
}

/// The indices below `n` of the keys that route to the shard, ascending.
pub open spec fn routed(hashes: Seq<u64>, n: int, shard_index: usize, num_shards: usize) -> Seq<u64>
    decreases n,
{
    if n <= 0 {
        seq![]
    } else if routes_to(hashes[n - 1], shard_index, num_shards) {
        routed(hashes, n - 1, shard_index, num_shards).push((n - 1) as u64)
    } else {
        routed(hashes, n - 1, shard_index, num_shards)
    }
}

/// The numbers are what the hasher gives for the keys from the first one on, each for the bytes of
/// its own key.
pub open spec fn key_hashes(hashes: Seq<u64>) -> bool {
    forall|i: int|
        0 <= i < hashes.len() ==> hashes_to(encode_utf8(key_text(i as u64)), #[trigger] hashes[i])
}

/// The keys that a run draws from.
pub struct Keyspace {
    /// Number of keys in this shard's partition (= total keys when unsharded).
    size: u64,
    /// Key indices in sharded mode. `None` = use 0..size directly.
    indices: Option<Vec<u64>>,
}

/// What a keyspace was asked for that cannot be had.
pub open spec fn refusal(total_keys: u64, shard_index: usize, num_shards: usize) -> Option<BenchError> {
    if total_keys == 0 {
        Some(BenchError::NoKeys)
    } else if num_shards == 0 {
        Some(BenchError::NoShards)
    } else if shard_index >= num_shards {
        Some(BenchError::ShardIndexTooHigh)
    } else {
        None
    }
}

/// The keyspace that these hashes of all keys give.
pub open spec fn keyspace_of(
    total_keys: u64,
    hashes: Seq<u64>,
    shard_index: usize,
    num_shards: usize,
) -> Result<Seq<u64>, BenchError> {
    match refusal(total_keys, shard_index, num_shards) {
        Some(e) => Err(e),
        None => if num_shards == 1 {
            Ok(Seq::new(total_keys as nat, |i: int| i as u64))
        } else {
            let v = routed(hashes, total_keys as int, shard_index, num_shards);
            if v.len() == 0 {
                Err(BenchError::EmptyShard)
            } else {
                Ok(v)
            }
        },
    }
}

impl Keyspace {
    /// There is a key, and the size is the number of indices.
    pub closed spec fn wf(&self) -> bool {
        self.size > 0 && match self.indices {
            Some(v) => v@.len() == self.size && self.size <= usize::MAX,
            None => true,
        }
    }

    /// The indices of the keys, in order.
    pub closed spec fn view(&self) -> Seq<u64> {
        match self.indices {
            Some(v) => v@,
            None => Seq::new(self.size as nat, |i: int| i as u64),
        }
    }

    /// All keys.
    pub fn new(size: u64) -> (r: Result<Keyspace, BenchError>)
        ensures
            match r {
                Ok(k) => k.wf() && size > 0 && k@ == Seq::new(size as nat, |i: int| i as u64),
                Err(e) => size == 0 && e == BenchError::NoKeys,
            },
    {
        Keyspace::new_sharded(size, 0, 1)
    }

    /// The keys that route to `shard_index` out of `num_shards` shards.
    pub fn new_sharded(total_keys: u64, shard_index: usize, num_shards: usize) -> (r: Result<
        Keyspace,
        BenchError,
    >)
        requires
            num_shards <= 1 || total_keys <= usize::MAX,
        ensures
            exists|hashes: Seq<u64>|
                hashes.len() == total_keys && (num_shards > 1 ==> key_hashes(hashes)) && made_as(
                    r,
                    #[trigger] keyspace_of(total_keys, hashes, shard_index, num_shards),
                ),
    {
        let mut hashes: Vec<u64> = Vec::new();
        if num_shards > 1 {
            let mut i: u64 = 0;
            while i < total_keys
                invariant
                    i <= total_keys,
                    hashes@.len() == i,
                    key_hashes(hashes@),
                decreases total_keys - i,
            {
                let key = format_key(i);
                let hash: u64 = hashed(fx_hash, key.as_slice());
                assert(hashes_to(key@, hash));
                hashes.push(hash);
                i = i + 1;
            }
        }
        let ghost all = if num_shards > 1 {
            hashes@
        } else {
            Seq::new(total_keys as nat, |i: int| 0u64)
        };
        let r = Keyspace::select(total_keys, &hashes, shard_index, num_shards);
        proof {
            if num_shards <= 1 {
                assert(keyspace_of(total_keys, all, shard_index, num_shards) == keyspace_of(
                    total_keys,
                    hashes@,
                    shard_index,
                    num_shards,
                ));
            }
            assert(made_as(r, keyspace_of(total_keys, all, shard_index, num_shards)));
        }
        r
    }

    /// The keyspace, given the hash of every key; with one shard no hash is looked at.
    pub fn select(
        total_keys: u64,
        hashes: &Vec<u64>,
        shard_index: usize,
        num_shards: usize,
    ) -> (r: Result<Keyspace, BenchError>)
        requires
            num_shards <= 1 || hashes@.len() == total_keys,
        ensures
            made_as(r, keyspace_of(total_keys, hashes@, shard_index, num_shards)),
    {
        if total_keys == 0 {
            return Err(BenchError::NoKeys);
        }
        if num_shards == 0 {
            return Err(BenchError::NoShards);
        }
        if shard_index >= num_shards {
            return Err(BenchError::ShardIndexTooHigh);
        }
        if num_shards == 1 {
            return Ok(Keyspace { size: total_keys, indices: None });
        }
        let mut v: Vec<u64> = Vec::new();
        let mut i: usize = 0;
        while i < hashes.len()
            invariant
                num_shards > 1,
                hashes@.len() == total_keys,
                i <= hashes@.len(),
                v@.len() <= i,
                v@ == routed(hashes@, i as int, shard_index, num_shards),
            decreases hashes@.len() - i,
        {
            if (hashes[i] as usize) % num_shards == shard_index {
                v.push(i as u64);
            }
            i = i + 1;
        }
        if v.len() == 0 {
            return Err(BenchError::EmptyShard);
        }
        Ok(Keyspace { size: v.len() as u64, indices: Some(v) })
    }

    pub fn size(&self) -> (n: u64)
        requires
            self.wf(),
        ensures
            n == self@.len(),
            n > 0,
    {
        self.size
    }

    /// The key at a position that was drawn.
    pub fn sample(&self, pos: u64) -> (r: Vec<u8>)
        requires
            self.wf(),
            pos < self@.len(),
        ensures
            r@ == encode_utf8(key_text(self@[pos as int])),
    {
        let idx: u64 = match &self.indices {
            Some(v) => v[pos as usize],
            None => pos,
        };
        format_key(idx)
    }

    /// Deterministic enumeration — used by the populate phase.
    pub fn nth(&self, i: u64) -> (r: Vec<u8>)
        requires
            self.wf(),
        ensures
            r@ == encode_utf8(key_text(self@[(i as int) % (self@.len() as int)])),
    {
        self.sample(i % self.size)
    }
}

/// The keyspace was made as these indices, or refused with this error.
pub open spec fn made_as(r: Result<Keyspace, BenchError>, want: Result<Seq<u64>, BenchError>) -> bool {
    match r {
        Ok(k) => k.wf() && want == Ok::<Seq<u64>, BenchError>(k@),
        Err(e) => want == Err::<Seq<u64>, BenchError>(e),
    }
}

/// The shards share the keys out: every key routes to one shard, and to one only.
pub proof fn lemma_shards_partition(hashes: Seq<u64>, n: int, num_shards: usize, i: int, s: usize)
    requires
        0 <= i < n <= hashes.len(),
        n <= u64::MAX,
        num_shards > 0,
        s < num_shards,
    ensures
        routed(hashes, n, s, num_shards).contains(i as u64) <==> (hashes[i] as usize) % num_shards
            == s,
    decreases n,
{
    let head = routed(hashes, n - 1, s, num_shards);
    let all = routed(hashes, n, s, num_shards);
    if i < n - 1 {
        lemma_shards_partition(hashes, n - 1, num_shards, i, s);
        if head.contains(i as u64) {
            let j = choose|j: int| 0 <= j < head.len() && head[j] == i as u64;
            assert(all[j] == i as u64);
        }
        if all.contains(i as u64) {
            let j = choose|j: int| 0 <= j < all.len() && all[j] == i as u64;
            if j < head.len() {
                assert(head[j] == i as u64);
            }
        }
    } else {
        lemma_routed_below(hashes, n - 1, s, num_shards);
        if routes_to(hashes[i], s, num_shards) {
            assert(all[head.len() as int] == i as u64);
        } else if all.contains(i as u64) {
            let j = choose|j: int| 0 <= j < all.len() && all[j] == i as u64;
            assert(head[j] < n - 1);
        }
    }
}

proof fn lemma_routed_below(hashes: Seq<u64>, n: int, s: usize, num_shards: usize)
    requires
        n <= u64::MAX,
    ensures
        forall|j: int|
            0 <= j < routed(hashes, n, s, num_shards).len() ==> #[trigger] routed(
                hashes,
                n,
                s,
                num_shards,
            )[j] < n,
    decreases n,
{
    if n > 0 {
        lemma_routed_below(hashes, n - 1, s, num_shards);
        let head = routed(hashes, n - 1, s, num_shards);
        let all = routed(hashes, n, s, num_shards);
        assert forall|j: int| 0 <= j < all.len() implies #[trigger] all[j] < n by {
            if j < head.len() {
                assert(all[j] == head[j]);
            }
        }
    }
}

} // verus!
