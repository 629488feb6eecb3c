//! The reference counts of blobs.
use std::collections::BTreeMap;

use beyond_kv::engine::log::clock::seconds;
use beyond_kv::engine::log::pool::{first_serving, takes, BufPool, Use};
use beyond_kv::engine::value_store::{
    blob_filename, content_hash, file_stripe, parse_blob_name, ContentHash, ValueStore,
};

/// A directory of blobs beside their reference counts.
struct Blobs {
    counts: ValueStore,
    files: BTreeMap<Vec<u8>, Vec<u8>>,
}

impl Blobs {
    fn new() -> Self {
        Blobs { counts: ValueStore::new(), files: BTreeMap::new() }
    }

    fn put(&mut self, value: &[u8]) -> ContentHash {
        let (h, first) = self.counts.put(value);
        if first {
            self.files.insert(blob_filename(&h).into_bytes(), value.to_vec());
        }
        h
    }

    fn get(&self, h: &ContentHash) -> Option<&Vec<u8>> {
        self.files.get(blob_filename(h).as_bytes())
    }

    fn collect_garbage(&mut self) {
        for h in self.counts.collect_garbage() {
            if self.counts.is_garbage(&h) {
                self.files.remove(blob_filename(&h).as_bytes());
            }
        }
    }

    fn sweep_orphans(&mut self) -> usize {
        let names: Vec<Vec<u8>> = self.files.keys().cloned().collect();
        let orphans = self.counts.sweep_orphans(&names);
        for &i in &orphans {
            self.files.remove(&names[i]);
        }
        orphans.len()
    }
}

#[test]
fn dedup_write_once_and_gc() {
    let mut vs = Blobs::new();

    let big = vec![7u8; 1_000_000]; // 1 MiB
    let h1 = vs.put(&big);
    let h2 = vs.put(&big); // identical content
    assert_eq!(h1, h2, "same content → same hash");
    assert_eq!(vs.counts.blob_count(), 1, "identical values dedup to ONE blob");
    assert_eq!(vs.counts.refcount(&h1), 2);
    assert_eq!(vs.get(&h1).unwrap(), &big, "roundtrip");

    let other = vec![9u8; 1_000_000];
    vs.put(&other);
    assert_eq!(vs.counts.blob_count(), 2, "distinct content → distinct blob");

    // Drop both refs to the first blob → refcount 0, queued for deletion.
    vs.counts.unref(&h1);
    vs.counts.unref(&h1);
    assert_eq!(vs.counts.refcount(&h1), 0);
    assert!(vs.get(&h1).is_some(), "blob still on disk before collect (deferred delete)");
    vs.collect_garbage();
    assert!(vs.get(&h1).is_none(), "blob GC'd after collect_garbage");
    assert_eq!(vs.counts.blob_count(), 1, "only the live blob remains");
}

#[test]
fn sweep_reclaims_orphans_only() {
    let mut vs = Blobs::new();
    let live = vs.put(&vec![1u8; 4096]);
    let orphan = vs.put(&vec![2u8; 4096]);
    // A crash that wrote the orphan blob but never recorded its reference: a fresh open counts
    // only the references of live keys.
    vs.counts = ValueStore::new();
    vs.counts.incr_ref(&live);

    let removed = vs.sweep_orphans();
    assert_eq!(removed, 1, "exactly the unreferenced blob is reclaimed");
    assert!(vs.get(&orphan).is_none(), "orphan blob deleted");
    assert_eq!(vs.get(&live).unwrap().len(), 4096, "live blob untouched");
}

#[test]
fn collect_garbage_skips_a_requeued_then_rereferenced_blob() {
    let mut vs = Blobs::new();
    let v = vec![0x5Au8; 4096];
    let h = vs.put(&v); // refcount 1, file written
    vs.counts.unref(&h); // refcount 0, queued for delete, file still present
    assert_eq!(vs.counts.refcount(&h), 0);
    vs.put(&v); // re-reference BEFORE gc → refcount 1
    assert_eq!(vs.counts.refcount(&h), 1);
    vs.collect_garbage(); // must SKIP h (live again)
    assert_eq!(vs.get(&h).unwrap(), &v, "re-referenced blob must survive GC");
}

#[test]
fn gc_does_not_delete_a_concurrently_recreated_blob() {
    let mut vs = Blobs::new();
    let v = vec![0xABu8; 8192];
    let h = content_hash(&v);

    for round in 0..300 {
        // Make h a queued (refcount 0) deletion with its file still on disk.
        vs.put(&v);
        vs.counts.unref(&h);
        assert_eq!(vs.counts.refcount(&h), 0);

        // A put of the same content comes before, within or after the collection.
        match round % 3 {
            0 => {
                vs.put(&v);
                vs.collect_garbage();
            }
            1 => {
                let queue = vs.counts.collect_garbage();
                vs.put(&v);
                for q in queue {
                    if vs.counts.is_garbage(&q) {
                        vs.files.remove(blob_filename(&q).as_bytes());
                    }
                }
            }
            _ => {
                vs.collect_garbage();
                vs.put(&v);
            }
        }

        assert_eq!(vs.counts.refcount(&h), 1, "put should have re-referenced the blob");
        assert_eq!(
            vs.get(&h).expect("live blob deleted by GC/put race"),
            &v,
            "blob content intact after concurrent GC + recreate"
        );

        // Reset for the next round.
        vs.counts.unref(&h);
        vs.collect_garbage();
    }
}

#[test]
fn failed_blob_write_takes_its_reference_back() {
    let mut counts = ValueStore::new();
    let (h, first) = counts.put(b"x");
    assert!(first);
    counts.put_failed(&h);
    assert_eq!(counts.refcount(&h), 0);
    assert!(counts.collect_garbage().is_empty());
    counts.unref(&h);
    assert!(counts.collect_garbage().is_empty(), "nothing to drop");
}

#[test]
fn clear_forgets_everything() {
    let mut counts = ValueStore::new();
    let (h, _) = counts.put(b"x");
    counts.put(b"y");
    counts.unref(&h);
    counts.clear();
    assert_eq!(counts.blob_count(), 0);
    assert!(counts.collect_garbage().is_empty());
}

#[test]
fn content_hash_is_half_of_blake3() {
    let full = blake3::hash(b"hello");
    assert_eq!(&content_hash(b"hello")[..], &full.as_bytes()[..16]);
    assert_ne!(content_hash(b"hello"), content_hash(b"hellp"));
}

#[test]
fn blob_names_read_back() {
    let h: ContentHash = [0, 1, 2, 3, 4, 5, 6, 7, 8, 9, 10, 11, 12, 13, 254, 255];
    let name = blob_filename(&h);
    assert_eq!(name, "blob-000102030405060708090a0b0c0dfeff");
    assert_eq!(parse_blob_name(name.as_bytes()), Some(h));
    assert_eq!(parse_blob_name(b"blob-00"), None);
    assert_eq!(parse_blob_name(b"blob-000102030405060708090a0b0c0dfefg"), None);
    assert_eq!(parse_blob_name(b"data-000102030405060708090a0b0c0dfeff"), None);
}

#[test]
fn stripe_is_taken_from_the_first_byte() {
    let mut h: ContentHash = [9; 16];
    h[0] = 0x5c;
    assert_eq!(file_stripe(&h), 0xc);
}

#[test]
fn pools_hand_out_and_take_back() {
    let mut reads = BufPool::new(Use::Read);
    let mut b = reads.acquire(5);
    assert_eq!(b, vec![0u8; 5]);
    b[0] = 9;
    reads.release(b);
    assert_eq!(reads.acquire(5), vec![0u8; 5], "no old bytes");
    let mut writes = BufPool::new(Use::Write);
    let w = writes.acquire(100);
    assert!(w.is_empty() && w.capacity() >= 100);
    writes.release(w);
    assert!(writes.acquire(10).is_empty());
}

#[test]
fn pools_keep_what_is_small_enough() {
    let mut writes = BufPool::new(Use::Write);
    let mut kept = Vec::with_capacity(100);
    kept.push(7u8);
    let there = kept.as_ptr();
    writes.release(kept);
    let again = writes.acquire(50);
    assert!(again.is_empty());
    assert_eq!(again.as_ptr(), there, "the buffer itself comes back");
    // One that is said to be too large is dropped.
    writes.release_sized(again, 65_537);
    assert!(writes.acquire(0).capacity() == 0);
    // A long buffer is dropped, whatever the allocator gave it.
    let long = vec![0u8; 65_537];
    writes.release(long);
    assert!(writes.acquire(0).capacity() == 0);
}

#[test]
fn clock_before_the_epoch_gives_zero() {
    assert_eq!(seconds(None), 0);
    assert_eq!(seconds(Some(7)), 7);
}

#[test]
fn buffers_serve_by_capacity() {
    let caps = vec![4, 16, 8, 16];
    assert_eq!(first_serving(Use::Read, &caps, 16), Some(1));
    assert_eq!(first_serving(Use::Read, &caps, 9), None);
    assert_eq!(first_serving(Use::Write, &caps, 5), Some(1));
    assert_eq!(first_serving(Use::Write, &caps, 17), None);
    assert!(takes(31, 65_536));
    assert!(!takes(32, 1));
    assert!(!takes(0, 65_537));
}
