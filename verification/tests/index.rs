//! The index of a namespace.
use beyond_kv::engine::log::index::{IndexEntry, NsIndex};

fn b(s: &str) -> Vec<u8> {
    s.as_bytes().to_vec()
}

#[test]
fn entry_size_is_24() {
    assert_eq!(std::mem::size_of::<IndexEntry>(), 24);
}

#[test]
fn index_insert_and_get() {
    let mut idx = NsIndex::new();
    idx.insert(b("k"), IndexEntry::new(0, 100, 50, 12345), None);
    let e = idx.get(b"k").unwrap();
    assert_eq!(e.record_offset, 100);
    assert_eq!(e.record_size, 50);
    assert_eq!(e.tstamp_ms, 12345);
}

#[test]
fn remove_drops_ttl_too() {
    let mut idx = NsIndex::new();
    idx.insert(b("k"), IndexEntry::new(0, 0, 1, 0), Some(1000));
    assert!(idx.ttl(b"k").is_some());
    idx.remove(b"k");
    assert!(idx.ttl(b"k").is_none());
    assert!(idx.get(b"k").is_none());
}

#[test]
fn ttl_only_paid_for_expiring_keys() {
    let mut idx = NsIndex::new();
    idx.insert(b("a"), IndexEntry::new(0, 0, 1, 0), None);
    idx.insert(b("b"), IndexEntry::new(0, 0, 1, 0), Some(1000));
    assert_eq!(idx.ttl_len(), 1);
    assert_eq!(idx.len(), 2);
}

#[test]
fn is_expired() {
    let mut idx = NsIndex::new();
    idx.insert(b("k"), IndexEntry::new(0, 0, 1, 0), Some(100));
    assert!(idx.is_expired(b"k", 100));
    assert!(idx.is_expired(b"k", 200));
    assert!(!idx.is_expired(b"k", 99));
}

#[test]
fn scan_yields_all_keys_eventually() {
    let mut idx = NsIndex::new();
    for i in 0..50u8 {
        idx.insert(
            [i].to_vec(),
            IndexEntry::new(0, 0, 1, 0),
            None,
        );
    }
    let mut seen: Vec<Vec<u8>> = Vec::new();
    let mut cursor: Option<Vec<u8>> = None;
    loop {
        let (keys, next) = idx.scan(cursor.as_deref(), 7, 0, |_: &[u8]| true);
        seen.extend(keys);
        cursor = next;
        if cursor.is_none() {
            break;
        }
    }
    assert_eq!(seen.len(), 50);
}

#[test]
fn scan_no_duplicates_or_gaps_in_static_map() {
    // Key-based cursor must yield each key exactly once when the map is stable.
    let mut idx = NsIndex::new();
    for i in 0..100u8 {
        idx.insert(
            format!("key-{i:03}").into_bytes(),
            IndexEntry::new(0, 0, 1, 0),
            None,
        );
    }
    let mut seen: Vec<Vec<u8>> = Vec::new();
    let mut cursor: Option<Vec<u8>> = None;
    loop {
        let (keys, next) = idx.scan(cursor.as_deref(), 11, 0, |_: &[u8]| true);
        seen.extend(keys);
        cursor = next;
        if cursor.is_none() {
            break;
        }
    }
    assert_eq!(seen.len(), 100, "no gaps");
    let mut deduped = seen.clone();
    deduped.dedup();
    assert_eq!(deduped.len(), seen.len(), "no duplicates");
}

#[test]
fn scan_filter_applied() {
    let mut idx = NsIndex::new();
    for i in 0..10u8 {
        idx.insert(
            [b'a' + i].to_vec(),
            IndexEntry::new(0, 0, 1, 0),
            None,
        );
    }
    let mut seen: Vec<Vec<u8>> = Vec::new();
    let mut cursor: Option<Vec<u8>> = None;
    loop {
        let (keys, next) = idx.scan(cursor.as_deref(), 100, 0, |k: &[u8]| k[0] >= b'e');
        seen.extend(keys);
        cursor = next;
        if cursor.is_none() {
            break;
        }
    }
    assert_eq!(seen.len(), 6);
}

#[test]
fn scan_skips_expired() {
    let mut idx = NsIndex::new();
    idx.insert(b("live"), IndexEntry::new(0, 0, 1, 0), None);
    idx.insert(b("dead"), IndexEntry::new(0, 0, 1, 0), Some(50));
    let (keys, _next) = idx.scan(None, 100, 100, |_: &[u8]| true);
    let strs: Vec<&[u8]> = keys.iter().map(|k| k.as_ref()).collect();
    assert!(strs.contains(&b"live".as_ref()));
    assert!(!strs.contains(&b"dead".as_ref()));
}

#[test]
fn live_count_tracks_insert_overwrite_remove() {
    let mut idx = NsIndex::new();
    assert_eq!(idx.live_len(), 0);
    idx.insert(b("a"), IndexEntry::new(0, 0, 1, 1), None);
    assert_eq!(idx.live_len(), 1);
    idx.insert(b("b"), IndexEntry::new(0, 1, 1, 2), None);
    assert_eq!(idx.live_len(), 2);
    // Overwrite: count must not increase.
    idx.insert(b("a"), IndexEntry::new(0, 2, 1, 3), None);
    assert_eq!(idx.live_len(), 2);
    idx.remove(b"a");
    assert_eq!(idx.live_len(), 1);
    idx.remove(b"b");
    assert_eq!(idx.live_len(), 0);
    // Removing a non-existent key must not underflow.
    idx.remove(b"missing");
    assert_eq!(idx.live_len(), 0);
}

#[test]
fn scan_after_deletion_excludes_removed_key() {
    let mut idx = NsIndex::new();
    idx.insert(b("keep"), IndexEntry::new(0, 0, 1, 1), None);
    idx.insert(b("gone"), IndexEntry::new(0, 1, 1, 2), None);
    idx.remove(b"gone");
    let (keys, _) = idx.scan(None, 100, 0, |_: &[u8]| true);
    assert!(keys.contains(&b("keep")));
    assert!(!keys.contains(&b("gone")));
}

#[test]
fn scan_count_zero_clamped_to_one() {
    let mut idx = NsIndex::new();
    idx.insert(b("k"), IndexEntry::new(0, 0, 1, 1), None);
    // count=0 must be clamped to 1 so scan always makes progress.
    let (keys, _) = idx.scan(None, 0, 0, |_: &[u8]| true);
    assert_eq!(keys.len(), 1);
}

#[test]
fn pages_come_in_key_order_with_the_last_key_as_cursor() {
    let mut idx = NsIndex::new();
    for k in ["d", "a", "c", "b", "e"] {
        idx.insert(b(k), IndexEntry::new(0, 0, 1, 1), None);
    }
    let (keys, next) = idx.scan(None, 2, 0, |_: &[u8]| true);
    assert_eq!(keys, vec![b("a"), b("b")]);
    assert_eq!(next, Some(b("b")));
    let (keys, next) = idx.scan(next.as_deref(), 3, 0, |_: &[u8]| true);
    assert_eq!(keys, vec![b("c"), b("d"), b("e")]);
    assert_eq!(next, Some(b("e")));
    let (keys, next) = idx.scan(next.as_deref(), 3, 0, |_: &[u8]| true);
    assert!(keys.is_empty());
    assert_eq!(next, None);
}

#[test]
fn overwrite_without_expiry_drops_the_old_one() {
    let mut idx = NsIndex::new();
    idx.insert(b("k"), IndexEntry::new(0, 0, 1, 1), Some(5));
    idx.insert(b("k"), IndexEntry::new(0, 9, 1, 2), None);
    assert_eq!(idx.ttl(b"k"), None);
    assert_eq!(idx.get(b"k").unwrap().record_offset, 9);
    assert!(!idx.is_expired(b"k", 1000));
}

#[test]
fn expiry_and_hash_can_be_set_and_dropped() {
    let mut idx = NsIndex::new();
    idx.insert(b("k"), IndexEntry::new(0, 0, 1, 1), None);
    idx.set_ttl(b"k", Some(8));
    idx.set_valsep(b"k", Some([7u8; 16]));
    assert_eq!(idx.ttl(b"k"), Some(8));
    assert_eq!(idx.valsep(b"k"), Some([7u8; 16]));
    idx.set_ttl(b"k", None);
    idx.set_valsep(b"k", None);
    assert_eq!(idx.ttl(b"k"), None);
    assert_eq!(idx.valsep(b"k"), None);
    idx.clear();
    assert!(idx.is_empty());
}
