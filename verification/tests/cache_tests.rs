use cdn_client::cache::CacheStore;

#[test]
fn lookup_missing_is_none() {
    let store = CacheStore::new();
    assert!(store.lookup(&String::from("nothing")).is_none());
}

#[test]
fn upsert_then_lookup() {
    let mut store = CacheStore::new();
    let key = String::from("https://origin.example/a.mp4");
    store.upsert(key.clone(), vec![1, 2, 3], 100, 200).unwrap();
    let e = store.lookup(&key).expect("inserted entry is found");
    assert_eq!(e.descriptor, vec![1, 2, 3]);
    assert_eq!(e.created_at, 100);
    assert_eq!(e.expires_at, 200);
}

#[test]
fn upsert_replaces_whole_entry() {
    let mut store = CacheStore::new();
    let key = String::from("k");
    store.upsert(key.clone(), vec![1, 1, 1], 100, 200).unwrap();
    store.upsert(key.clone(), vec![2, 2], 150, 300).unwrap();
    let e = store.lookup(&key).expect("entry is found");
    assert_eq!(e.descriptor, vec![2, 2]);
    assert_eq!(e.created_at, 150);
    assert_eq!(e.expires_at, 300);
}

#[test]
fn upsert_keeps_other_keys() {
    let mut store = CacheStore::new();
    store.upsert(String::from("a"), vec![1], 1, 2).unwrap();
    store.upsert(String::from("b"), vec![2], 1, 2).unwrap();
    store.upsert(String::from("a"), vec![3], 1, 2).unwrap();
    assert_eq!(store.lookup(&String::from("a")).unwrap().descriptor, vec![3]);
    assert_eq!(store.lookup(&String::from("b")).unwrap().descriptor, vec![2]);
}

#[test]
fn freshness_window() {
    // created at T0, expiring an hour later
    let t0: i64 = 1_000_000;
    let mut store = CacheStore::new();
    let key = String::from("k");
    store.upsert(key.clone(), vec![9], t0, t0 + 3600).unwrap();
    // one second before expiry: fresh
    assert!(store.lookup_fresh(&key, t0 + 3599).is_some());
    // one second after expiry: stale, reported as absent
    assert!(store.lookup_fresh(&key, t0 + 3601).is_none());
    // at the expiry instant itself: no longer fresh
    assert!(store.lookup_fresh(&key, t0 + 3600).is_none());
    // the stale entry is still physically present for plain lookup
    assert!(store.lookup(&key).is_some());
}

#[test]
fn upsert_now_window() {
    let mut store = CacheStore::new();
    let key = String::from("k");
    let w = store.upsert_now(key.clone(), vec![5], 3600);
    assert_eq!(w.1, w.0 + 3600);
    let e = store.lookup(&key).expect("entry is found");
    assert_eq!(e.created_at, w.0);
    assert_eq!(e.expires_at, w.1);
    assert!(store.lookup_fresh(&key, w.0).is_some());
}
