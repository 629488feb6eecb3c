//! Subscriptions.
use beyond_kv::engine::error::EngineError;
use beyond_kv::engine::watch::{
    KeyFilter, WatchEvent, WatchRegistry, MAX_TOTAL_SUBSCRIPTIONS, WATCH_CHANNEL_CAPACITY,
};

fn set_event(key: &[u8]) -> WatchEvent {
    WatchEvent::SetKey {
        key: key.to_vec(),
        value: b"v".to_vec(),
        metadata: None,
        expires_at_ms: None,
        revision: 1,
    }
}

fn del_event(key: &[u8]) -> WatchEvent {
    WatchEvent::Del { key: key.to_vec(), revision: 2 }
}

#[test]
fn exact_key_receives_event() {
    let mut reg = WatchRegistry::new();
    let mut rx = reg
        .subscribe_key(b"ns".to_vec(), b"k".to_vec())
        .unwrap();
    reg.notify("ns", b"k", set_event(b"k"));
    assert!(matches!(rx.try_recv().unwrap(), WatchEvent::SetKey { .. }));
}

#[test]
fn exact_key_ignores_other_keys() {
    let mut reg = WatchRegistry::new();
    let mut rx = reg
        .subscribe_key(b"ns".to_vec(), b"k".to_vec())
        .unwrap();
    reg.notify("ns", b"other", set_event(b"other"));
    assert!(rx.try_recv().is_err(), "channel should be empty");
}

#[test]
fn exact_key_ignores_other_namespaces() {
    let mut reg = WatchRegistry::new();
    let mut rx = reg
        .subscribe_key(b"ns1".to_vec(), b"k".to_vec())
        .unwrap();
    reg.notify("ns2", b"k", set_event(b"k"));
    assert!(rx.try_recv().is_err(), "channel should be empty");
}

#[test]
fn prefix_receives_matching_keys() {
    let mut reg = WatchRegistry::new();
    let mut rx = reg
        .subscribe_prefix(b"ns".to_vec(), b"cfg/".to_vec())
        .unwrap();
    reg.notify("ns", b"cfg/a", set_event(b"cfg/a"));
    reg.notify("ns", b"cfg/b", del_event(b"cfg/b"));
    reg.notify("ns", b"other", set_event(b"other")); // no match

    assert!(rx.try_recv().is_ok()); // cfg/a
    assert!(rx.try_recv().is_ok()); // cfg/b
    assert!(rx.try_recv().is_err(), "other should be filtered"); // other filtered
}

#[test]
fn dead_exact_sender_pruned() {
    let mut reg = WatchRegistry::new();
    let rx = reg
        .subscribe_key(b"ns".to_vec(), b"k".to_vec())
        .unwrap();
    drop(rx);
    // First notify prunes the dead sender.
    reg.notify("ns", b"k", set_event(b"k"));
    // Registry should no longer hold an entry for this key.
    assert!(
        !reg.has_key(b"ns", b"k")
    );
}

#[test]
fn dead_prefix_sender_pruned() {
    let mut reg = WatchRegistry::new();
    let rx = reg
        .subscribe_prefix(b"ns".to_vec(), b"cfg/".to_vec())
        .unwrap();
    drop(rx);
    reg.notify("ns", b"cfg/x", set_event(b"cfg/x"));
    assert!(reg.prefix_count() == 0);
}

#[test]
fn multiple_subscribers_same_key() {
    let mut reg = WatchRegistry::new();
    let mut rx1 = reg
        .subscribe_key(b"ns".to_vec(), b"k".to_vec())
        .unwrap();
    let mut rx2 = reg
        .subscribe_key(b"ns".to_vec(), b"k".to_vec())
        .unwrap();
    reg.notify("ns", b"k", set_event(b"k"));
    assert!(rx1.try_recv().is_ok());
    assert!(rx2.try_recv().is_ok());
}

#[test]
fn subscription_cap_rejects_when_full_but_reclaims_dead_first() {
    let mut reg = WatchRegistry::new();
    // Fill the registry to the cap with distinct live keys.
    let mut live = Vec::with_capacity(MAX_TOTAL_SUBSCRIPTIONS);
    for i in 0..MAX_TOTAL_SUBSCRIPTIONS {
        let key = format!("k{i}").into_bytes();
        live.push(
            reg.subscribe_key(b"ns".to_vec(), key)
                .expect("under cap"),
        );
    }
    assert_eq!(reg.total_subscriptions(), MAX_TOTAL_SUBSCRIPTIONS);

    // At the cap, one more is rejected.
    assert!(matches!(
        reg.subscribe_key(b"ns".to_vec(), b"overflow".to_vec()),
        Err(EngineError::CapacityExceeded { .. })
    ));

    // Drop one receiver: its sender is now dead. The next subscribe must
    // reclaim it instead of falsely rejecting.
    live.pop();
    let rx = reg.subscribe_key(b"ns".to_vec(), b"after-drop".to_vec());
    assert!(rx.is_ok(), "dead sender should have been reclaimed");
    assert_eq!(reg.total_subscriptions(), MAX_TOTAL_SUBSCRIPTIONS);
}

#[test]
fn subscriber_receives_what_was_sent() {
    let mut reg = WatchRegistry::new();
    let mut rx = reg.subscribe_key(b"ns".to_vec(), b"k".to_vec()).unwrap();
    reg.notify("ns", b"k", set_event(b"k"));
    reg.notify("ns", b"k", del_event(b"k"));
    match rx.try_recv().unwrap() {
        WatchEvent::SetKey { key, value, metadata, expires_at_ms, revision } => {
            assert_eq!(key, b"k");
            assert_eq!(value, b"v");
            assert!(metadata.is_none());
            assert_eq!(expires_at_ms, None);
            assert_eq!(revision, 1);
        }
        other => panic!("{other:?}"),
    }
    match rx.try_recv().unwrap() {
        WatchEvent::Del { key, revision } => assert_eq!((key, revision), (b"k".to_vec(), 2)),
        other => panic!("{other:?}"),
    }
}

#[test]
fn slow_subscriber_is_pruned() {
    let mut reg = WatchRegistry::default();
    let mut rx = reg.subscribe_key(b"ns".to_vec(), b"k".to_vec()).unwrap();
    for _ in 0..WATCH_CHANNEL_CAPACITY + 2 {
        reg.notify("ns", b"k", set_event(b"k"));
    }
    assert_eq!(reg.total_subscriptions(), 0);
    assert!(rx.try_recv().is_ok());
}

#[test]
fn key_and_prefix_subscribers_are_separate() {
    let mut reg = WatchRegistry::new();
    let mut exact = reg.subscribe_key(b"ns".to_vec(), b"cfg/a".to_vec()).unwrap();
    let mut prefix = reg.subscribe_prefix(b"ns".to_vec(), b"cfg/".to_vec()).unwrap();
    let mut elsewhere = reg.subscribe_prefix(b"other".to_vec(), b"cfg/".to_vec()).unwrap();
    reg.notify("ns", b"cfg/a", set_event(b"cfg/a"));
    assert!(exact.try_recv().is_ok());
    assert!(prefix.try_recv().is_ok());
    assert!(elsewhere.try_recv().is_err());
    assert_eq!(reg.total_subscriptions(), 3);
}

#[test]
fn filters_match_exactly_or_by_prefix() {
    assert!(KeyFilter::Exact(b"ab").matches(b"ab"));
    assert!(!KeyFilter::Exact(b"ab").matches(b"abc"));
    assert!(KeyFilter::Prefix(b"ab").matches(b"abc"));
    assert!(KeyFilter::Prefix(b"").matches(b"x"));
    assert!(!KeyFilter::Prefix(b"abc").matches(b"ab"));
}

#[test]
fn namespace_and_key_do_not_run_together() {
    let mut reg = WatchRegistry::new();
    let mut rx = reg.subscribe_key(b"ab".to_vec(), b"c".to_vec()).unwrap();
    reg.notify("a", b"bc", set_event(b"bc"));
    assert!(rx.try_recv().is_err());
}

#[test]
fn an_offer_says_who_took_it_and_drops_nobody() {
    let mut reg = WatchRegistry::new();
    let mut a = reg.subscribe_key(b"ns".to_vec(), b"k".to_vec()).unwrap();
    let b = reg.subscribe_key(b"ns".to_vec(), b"k".to_vec()).unwrap();
    let mut p = reg.subscribe_prefix(b"ns".to_vec(), b"k".to_vec()).unwrap();
    let q = reg.subscribe_prefix(b"ns".to_vec(), b"k".to_vec()).unwrap();
    let other = reg.subscribe_prefix(b"ns".to_vec(), b"x".to_vec()).unwrap();
    drop(b);
    drop(q);
    drop(other);
    let (keys, prefixes) = reg.offer("ns", b"k", &set_event(b"k"));
    assert_eq!(keys, vec![true, false]);
    // The last one does not want the key: it is not asked.
    assert_eq!(prefixes, vec![true, false, true]);
    assert_eq!(reg.total_subscriptions(), 5);
    assert!(a.try_recv().is_ok() && a.try_recv().is_err());
    assert!(p.try_recv().is_ok() && p.try_recv().is_err());
}

#[test]
fn the_marked_subscribers_stay() {
    let mut reg = WatchRegistry::new();
    let mut a = reg.subscribe_key(b"ns".to_vec(), b"k".to_vec()).unwrap();
    let mut b = reg.subscribe_key(b"ns".to_vec(), b"k".to_vec()).unwrap();
    let mut p = reg.subscribe_prefix(b"ns".to_vec(), b"".to_vec()).unwrap();
    let mut q = reg.subscribe_prefix(b"ns".to_vec(), b"".to_vec()).unwrap();
    reg.settle("ns", b"k", &vec![false, true], &vec![true, false]);
    assert_eq!(reg.total_subscriptions(), 2);
    reg.notify("ns", b"k", set_event(b"k"));
    assert!(a.try_recv().is_err());
    assert!(matches!(b.try_recv().unwrap(), WatchEvent::SetKey { .. }));
    assert!(matches!(p.try_recv().unwrap(), WatchEvent::SetKey { .. }));
    assert!(q.try_recv().is_err());
    reg.settle("ns", b"k", &vec![false], &vec![false]);
    assert!(!reg.has_key(b"ns", b"k"));
    assert_eq!(reg.total_subscriptions(), 0);
}

#[test]
fn each_subscriber_gets_the_receiver_of_its_own_channel() {
    let mut reg = WatchRegistry::new();
    let mut a = reg.subscribe_key(b"ns".to_vec(), b"a".to_vec()).unwrap();
    let mut b = reg.subscribe_key(b"ns".to_vec(), b"b".to_vec()).unwrap();
    reg.notify("ns", b"b", set_event(b"b"));
    reg.notify("ns", b"a", del_event(b"a"));
    assert!(matches!(a.try_recv().unwrap(), WatchEvent::Del { .. }));
    assert!(matches!(b.try_recv().unwrap(), WatchEvent::SetKey { .. }));
    assert!(a.try_recv().is_err() && b.try_recv().is_err());
}
