use rusticache::Db;
use std::sync::{Arc, Mutex};

/// Waits until the store's clock has advanced by `ms` milliseconds.
fn sleep_ms(db: &Db, ms: u64) {
    let until = db.now() + ms * 1_000_000;
    while db.now() < until {
        std::hint::spin_loop();
    }
}

#[test]
fn test_basic_set_get() {
    let mut db = Db::new();
    db.set("hello".to_string(), b"world".to_vec(), None);

    let val = db.get("hello");
    assert_eq!(val, Some(b"world".to_vec()));

    assert!(db.key_exists("hello"));
    assert!(!db.key_exists("nonexistent"));

    assert!(db.del("hello"));
    assert_eq!(db.get("hello"), None);
    assert!(!db.del("hello"));
}

#[test]
fn test_ttl_expiry() {
    let mut db = Db::new();
    let expiry = db.now() + 100_000_000;
    db.set("temp_key".to_string(), b"ephemeral".to_vec(), Some(expiry));

    // Initially present
    assert_eq!(db.get("temp_key"), Some(b"ephemeral".to_vec()));

    // Sleep past expiration
    sleep_ms(&db, 150);

    // Lazy cleanup should return None
    assert_eq!(db.get("temp_key"), None);
    assert!(!db.key_exists("temp_key"));
}

#[test]
fn test_active_eviction_purging() {
    let mut db = Db::new();
    let expiry = db.now() + 50_000_000;

    for i in 0..50 {
        db.set(format!("key_{}", i), b"data".to_vec(), Some(expiry));
    }

    sleep_ms(&db, 80);

    // Active eviction should purge expired keys
    let purged = db.purge_expired_sample(50);
    assert_eq!(purged, 50);
    assert_eq!(db.keys().len(), 0);
}

#[test]
fn test_concurrent_access() {
    let db = Arc::new(Mutex::new(Db::new()));
    let runtime = tokio::runtime::Builder::new_multi_thread()
        .worker_threads(4)
        .build()
        .unwrap();
    let mut handles = Vec::new();

    for t in 0..10 {
        let db_clone = Arc::clone(&db);
        handles.push(runtime.spawn(async move {
            for i in 0..100 {
                let key = format!("concurrent_k_{}_{}", t, i);
                let mut guard = db_clone.lock().unwrap();
                guard.set(key.clone(), b"val".to_vec(), None);
                assert_eq!(guard.get(&key), Some(b"val".to_vec()));
            }
        }));
    }

    for h in handles {
        runtime.block_on(h).unwrap();
    }

    assert_eq!(db.lock().unwrap().keys().len(), 1000);
}

#[test]
fn test_lru_memory_eviction() {
    // 4 shards, max memory 300 bytes
    let mut db = Db::with_config(4, 300);

    db.set("k1".to_string(), b"val1".to_vec(), None);
    sleep_ms(&db, 5);
    db.set("k2".to_string(), b"val2".to_vec(), None);
    sleep_ms(&db, 5);

    // Access k1 so k2 becomes the least recently used
    let _ = db.get("k1");
    sleep_ms(&db, 5);

    // Adding more keys pushes memory over 300 bytes and triggers eviction
    for i in 3..10 {
        db.set(format!("k{}", i), b"data_payload".to_vec(), None);
    }

    // Total memory must be kept under max
    assert!(db.memory_used() <= 350);
}

#[test]
fn test_lru_evicts_least_recently_used() {
    // Each entry here accounts for 74 bytes: a one-byte key, a one-byte
    // value and the entry record.
    let mut db = Db::with_config(1, 150);
    db.set_at("a".to_string(), b"1".to_vec(), None, 10);
    db.set_at("b".to_string(), b"2".to_vec(), None, 20);
    assert_eq!(db.get_at("a", 30), Some(b"1".to_vec()));
    db.set_at("c".to_string(), b"3".to_vec(), None, 40);
    db.set_at("d".to_string(), b"4".to_vec(), None, 50);
    let mut keys = db.keys_at(60);
    keys.sort();
    assert_eq!(keys, vec!["a".to_string(), "c".to_string(), "d".to_string()]);
    assert!(db.memory_used() < 150 + 74);
}

#[test]
fn test_get_after_set_at_explicit_times() {
    let mut db = Db::new();
    db.set_at("k".to_string(), b"v".to_vec(), Some(1_000), 0);
    assert_eq!(db.get_at("k", 999), Some(b"v".to_vec()));
    assert_eq!(db.get_at("k", 1_000), None);
    // the expired entry was removed by the read
    assert!(!db.del("k"));
}

#[test]
fn test_set_replaces_value_and_accounting() {
    let mut db = Db::new();
    db.set_at("k".to_string(), b"short".to_vec(), None, 0);
    let first = db.memory_used();
    db.set_at("k".to_string(), b"longer value".to_vec(), None, 1);
    assert_eq!(db.memory_used(), first + 7);
    assert_eq!(db.get_at("k", 2), Some(b"longer value".to_vec()));
    assert!(db.del("k"));
    assert_eq!(db.memory_used(), 0);
}

#[test]
fn test_keys_skip_expired_and_purge_keeps_live() {
    let mut db = Db::with_config(2, 0);
    db.set_at("live".to_string(), b"1".to_vec(), None, 0);
    db.set_at("dead".to_string(), b"2".to_vec(), Some(5), 0);
    let mut keys = db.keys_at(10);
    keys.sort();
    assert_eq!(keys, vec!["live".to_string()]);
    assert_eq!(db.purge_expired_sample_at(10, 10), 1);
    assert_eq!(db.keys_at(10), vec!["live".to_string()]);
    assert_eq!(db.purge_expired_sample_at(10, 10), 0);
}

#[test]
fn test_purge_examines_only_sample() {
    let mut db = Db::with_config(1, 0);
    for i in 0..4 {
        db.set_at(format!("e{}", i), b"x".to_vec(), Some(1), 0);
    }
    assert_eq!(db.purge_expired_sample_at(2, 5), 2);
    assert_eq!(db.purge_expired_sample_at(2, 5), 2);
    assert_eq!(db.purge_expired_sample_at(2, 5), 0);
}

#[test]
fn test_shard_count_rounds_to_power_of_two() {
    let mut db = Db::with_config(0, 0);
    db.set_at("a".to_string(), b"b".to_vec(), None, 0);
    assert_eq!(db.get_at("a", 0), Some(b"b".to_vec()));
    let mut db3 = Db::with_config(3, 0);
    for i in 0..20 {
        db3.set_at(format!("x{}", i), b"y".to_vec(), None, 0);
    }
    assert_eq!(db3.keys_at(0).len(), 20);
}

#[test]
fn test_fits_accounting_bound() {
    let db = Db::new();
    assert!(db.fits(3, 5));
    assert!(!db.fits(usize::MAX, 1));
}

#[test]
fn test_clock_advances() {
    let db = Db::new();
    let a = db.now();
    sleep_ms(&db, 2);
    let b = db.now();
    assert!(b > a);
    assert!(b - a >= 2_000_000);
}

#[test]
fn test_default_db_is_empty() {
    let db: Db = Default::default();
    assert_eq!(db.memory_used(), 0);
    assert!(db.keys_at(0).is_empty());
}

#[test]
fn test_listed_keys_read_back() {
    let mut db = Db::with_config(8, 0);
    for i in 0..30 {
        let exp = if i % 3 == 0 { Some(10) } else { None };
        db.set_at(format!("key{}", i), vec![i as u8], exp, 0);
    }
    let listed = db.keys_at(20);
    assert_eq!(listed.len(), 20);
    for k in listed {
        assert!(db.get_at(&k, 20).is_some());
    }
}
