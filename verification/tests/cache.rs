//! The memory cache.
use beyond_kv::engine::cache::MemCache;

fn b(s: &str) -> Vec<u8> {
    s.as_bytes().to_vec()
}

#[test]
fn cache_insert_and_get() {
    let mut cache = MemCache::new(1024);
    cache.insert(b("k"), b("v"), None, None, 0, 0);
    let (val, exp, meta, _rev) = cache.get(b"k", 0).unwrap();
    assert_eq!(val, b("v"));
    assert_eq!(exp, None);
    assert_eq!(meta, None);
}

#[test]
fn cache_get_missing_returns_none() {
    let mut cache = MemCache::new(1024);
    assert!(cache.get(b"missing", 0).is_none());
}

#[test]
fn remove() {
    let mut cache = MemCache::new(1024);
    cache.insert(b("k"), b("v"), None, None, 0, 0);
    cache.remove(b"k");
    assert!(cache.get(b"k", 0).is_none());
    assert!(cache.is_empty());
}

#[test]
fn expiry_lazy_on_get() {
    let mut cache = MemCache::new(1024);
    cache.insert(b("k"), b("v"), Some(100), None, 0, 0);
    assert!(cache.get(b"k", 50).is_some()); // not yet expired
    assert!(cache.get(b"k", 100).is_none()); // expired (ms <= now)
    assert!(cache.is_empty());
}

#[test]
fn sweep_expired() {
    let mut cache = MemCache::new(4096);
    cache.insert(b("a"), b("1"), Some(100), None, 0, 0);
    cache.insert(b("b"), b("2"), Some(200), None, 0, 0);
    cache.insert(b("c"), b("3"), None, None, 0, 0);
    cache.sweep_expired(150);
    assert!(cache.get(b"a", 0).is_none());
    assert!(cache.get(b"b", 0).is_some());
    assert!(cache.get(b"c", 0).is_some());
    assert_eq!(cache.len(), 2);
}

#[test]
fn in_place_update() {
    let mut cache = MemCache::new(1024);
    cache.insert(b("key"), b("v1"), None, None, 0, 1);
    assert_eq!(cache.len(), 1);
    cache.insert(b("key"), b("v_new"), Some(999), None, 0, 2);
    let (val, exp, _, rev) = cache.get(b"key", 0).unwrap();
    assert_eq!(val, b("v_new"));
    assert_eq!(exp, Some(999));
    assert_eq!(rev, 2);
    assert_eq!(cache.len(), 1);
    // key(3) + value(5) = 8
    assert_eq!(cache.bytes_used(), 8);
}

#[test]
fn bytes_used_includes_key_size() {
    let mut cache = MemCache::new(1_000_000);
    let key = vec![b'k'; 100];
    let val = vec![b'v'; 50];
    cache.insert(key, val, None, None, 0, 0);
    assert_eq!(cache.bytes_used(), 150);
}

#[test]
fn bytes_used_includes_metadata_size() {
    let mut cache = MemCache::new(1_000_000);
    let mut object = serde_json::Map::new();
    object.insert("x".to_string(), serde_json::Value::from(1));
    let meta_bytes = serde_json::to_vec(&serde_json::Value::Object(object)).unwrap();
    cache.insert(
        b("k"),
        b("v"),
        None,
        Some(meta_bytes.clone()),
        meta_bytes.len(),
        0,
    );
    // key(1) + value(1) + serialized_meta
    assert_eq!(cache.bytes_used(), 1 + 1 + meta_bytes.len());
}

#[test]
fn capacity_is_respected() {
    let mut cache = MemCache::new(100);
    for i in 0u8..20 {
        let k = vec![i; 5];
        let v = vec![i; 5];
        cache.insert(k, v, None, None, 0, 0);
    }
    assert!(
        cache.bytes_used() <= 100,
        "bytes_used {} exceeded max_bytes 100",
        cache.bytes_used()
    );
}

#[test]
fn hot_small_entry_promoted_to_main_on_eviction() {
    // 5 entries of 20 bytes each = exactly 100 bytes (at capacity).
    // Access key[0] so its freq=1 — it must be promoted to Main, not evicted.
    let mut cache = MemCache::new(100);
    for i in 0u8..5 {
        cache.insert(
            vec![i; 10],
            vec![i; 10],
            None,
            None,
            0,
            0,
        );
    }
    let _ = cache.get(&[0u8; 10], 0); // set freq=1
    // Inserting 5 more forces eviction; key[0] should survive via promotion
    for i in 5u8..10 {
        cache.insert(
            vec![i; 10],
            vec![i; 10],
            None,
            None,
            0,
            0,
        );
    }
    assert!(
        cache.get(&[0u8; 10], 0).is_some(),
        "hot key should survive eviction via Small→Main promotion"
    );
}

#[test]
fn ghost_re_insertion_goes_directly_to_main() {
    // Fill to capacity (5 entries × 20 bytes = 100 bytes).
    // Key[0] is never accessed — it will be evicted cold into the ghost set.
    // Re-inserting key[0] should place it in Main (ghost hit), not Small.
    let mut cache = MemCache::new(100);
    for i in 0u8..5 {
        cache.insert(
            vec![i; 10],
            vec![i; 10],
            None,
            None,
            0,
            0,
        );
    }
    // Insert 5 more — key[0] is evicted cold and lands in ghost
    for i in 5u8..10 {
        cache.insert(
            vec![i; 10],
            vec![i; 10],
            None,
            None,
            0,
            0,
        );
    }
    assert!(
        cache.get(&[0u8; 10], 0).is_none(),
        "key[0] should have been evicted"
    );
    // Re-insert key[0] — ghost hit means it targets Main, surviving where Small entry would not
    let new_val = vec![99u8; 10];
    cache.insert(
        vec![0u8; 10],
        new_val.clone(),
        None,
        None,
        0,
        0,
    );
    let (val, _, _, _) = cache.get(&[0u8; 10], 0).unwrap();
    assert_eq!(val, new_val);
}

#[test]
fn ghost_bounded_by_ghost_max() {
    // ghost_max = (50 / 640).max(64) = 64
    let mut cache = MemCache::new(50);
    for i in 0u16..500 {
        let k = i.to_le_bytes().to_vec();
        cache.insert(k, vec![1u8], None, None, 0, 0);
    }
    let ghost_len = cache.ghost_len();
    assert!(
        ghost_len <= cache.ghost_max(),
        "ghost set size {} exceeded ghost_max {}",
        ghost_len,
        cache.ghost_max()
    );
}

#[test]
fn is_empty() {
    let mut cache = MemCache::new(1024);
    assert!(cache.is_empty());
    cache.insert(b("k"), b("v"), None, None, 0, 0);
    assert!(!cache.is_empty());
    cache.remove(b"k");
    assert!(cache.is_empty());
}

#[test]
fn metadata_round_trip() {
    let mut cache = MemCache::new(4096);
    let mut object = serde_json::Map::new();
    object.insert("score".to_string(), serde_json::Value::from(42));
    object.insert("tags".to_string(), serde_json::Value::from(vec!["a", "b"]));
    let meta = serde_json::to_vec(&serde_json::Value::Object(object)).unwrap();
    cache.insert(b("k"), b("v"), None, Some(meta.clone()), 0, 0);
    let (_, _, got_meta, _) = cache.get(b"k", 0).unwrap();
    assert_eq!(got_meta, Some(meta));
}

// --- remove_by_prefix ---

#[test]
fn remove_by_prefix_removes_matching() {
    let mut cache = MemCache::new(4096);
    cache.insert(b("user:alice"), b("1"), None, None, 0, 0);
    cache.insert(b("user:bob"), b("2"), None, None, 0, 0);
    cache.insert(b("session:x"), b("3"), None, None, 0, 0);
    cache.remove_by_prefix(b"user:");
    assert!(cache.get(b"user:alice", 0).is_none());
    assert!(cache.get(b"user:bob", 0).is_none());
    assert!(cache.get(b"session:x", 0).is_some());
}

#[test]
fn remove_by_prefix_empty_prefix_removes_all() {
    let mut cache = MemCache::new(4096);
    cache.insert(b("a"), b("1"), None, None, 0, 0);
    cache.insert(b("b"), b("2"), None, None, 0, 0);
    cache.remove_by_prefix(b"");
    assert!(cache.is_empty());
}

#[test]
fn remove_by_prefix_no_match_is_noop() {
    let mut cache = MemCache::new(4096);
    cache.insert(b("foo"), b("bar"), None, None, 0, 0);
    cache.remove_by_prefix(b"zzz");
    assert!(cache.get(b"foo", 0).is_some());
}

#[test]
fn remove_by_prefix_on_empty_cache_is_noop() {
    let mut cache = MemCache::new(4096);
    cache.remove_by_prefix(b"any:");
    assert!(cache.is_empty());
}

// --- limits ---

#[test]
fn entry_larger_than_the_cache_is_not_kept() {
    let mut cache = MemCache::new(10);
    cache.insert(b("k"), vec![0u8; 20], None, None, 0, 0);
    assert!(cache.get(b"k", 0).is_none());
    assert_eq!(cache.bytes_used(), 0);
}

#[test]
fn ghost_limit_follows_the_size() {
    assert_eq!(MemCache::new(50).ghost_max(), 64);
    assert_eq!(MemCache::new(640 * 100).ghost_max(), 100);
    assert_eq!(MemCache::new(50).max_bytes(), 50);
}

#[test]
fn try_update_only_touches_cached_keys() {
    let mut cache = MemCache::new(1024);
    assert!(!cache.try_update(b"k", b("v"), None, None, 0, 1));
    assert!(cache.is_empty());
    cache.insert(b("k"), b("v"), None, None, 0, 1);
    assert!(cache.try_update(b"k", b("longer"), Some(7), None, 0, 2));
    let (val, exp, _, rev) = cache.get(b"k", 0).unwrap();
    assert_eq!((val, exp, rev), (b("longer"), Some(7), 2));
    assert_eq!(cache.bytes_used(), 7);
}

#[test]
fn eviction_keeps_what_it_keeps_unchanged() {
    let mut cache = MemCache::new(200);
    for i in 0u8..60 {
        cache.insert(vec![i; 4], vec![i; 6], None, None, 0, i as u64);
        if i % 3 == 0 {
            let _ = cache.get(&[i; 4], 0);
        }
        assert!(cache.bytes_used() <= 200);
    }
    let mut kept = 0;
    for i in 0u8..60 {
        if let Some((val, _, _, rev)) = cache.get(&[i; 4], 0) {
            assert_eq!(val, vec![i; 6]);
            assert_eq!(rev, i as u64);
            kept += 1;
        }
    }
    assert_eq!(kept, cache.len());
    assert_eq!(cache.bytes_used(), kept * 10);
}

#[test]
fn bytes_used_are_those_of_the_entries() {
    let mut cache = MemCache::new(64);
    let mut kept: Vec<(Vec<u8>, usize)> = Vec::new();
    for i in 0..40usize {
        let key = b(&format!("key{i}"));
        let value = vec![7u8; i % 9];
        let meta = i % 4;
        let size = key.len() + value.len() + meta;
        kept.retain(|(k, _)| k != &key);
        kept.push((key.clone(), size));
        cache.insert(key, value, None, None, meta, i as u64);
        let mut sum = 0;
        for (k, n) in &kept {
            if cache.get(k, 0).is_some() {
                sum += n;
            }
        }
        assert_eq!(cache.bytes_used(), sum);
        assert!(cache.bytes_used() <= 64);
    }
    cache.insert(b(""), b(""), None, None, 0, 0);
    assert!(cache.get(b"", 0).is_some());
}

#[test]
fn a_cache_without_a_limit_takes_entries() {
    let mut cache = MemCache::new(usize::MAX);
    cache.insert(b("k"), b("value"), None, None, 3, 1);
    assert!(cache.try_update(b"k", b("v"), None, None, 0, 2));
    assert_eq!(cache.bytes_used(), 2);
    assert_eq!(cache.get(b"k", 0).unwrap().0, b("v"));
}
