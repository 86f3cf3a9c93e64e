//! End-to-end tests of the storage coordinator against the real
//! persistent store and cache.

use storage_hal::codec::{from_be4, to_be4};
use storage_hal::errors::StorageError;
use storage_hal::keys::{bytes_eq, composite_key, parse_composite_key, ParsedKey};
use storage_hal::policy::{should_delete, EvictionCause};
use storage_hal::cache::EvictionEvent;
use storage_hal::storage::{valid_namespace, Storage, StorageConfig};

fn test_config(path: &str) -> StorageConfig {
    StorageConfig {
        db_path: format!("/tmp/{}", path),
        cache_num_segments: 1,
        cache_max_capacity: None,
        cache_time_to_live: None,
        cache_time_to_idle: None,
        temporary: true,
    }
}

fn wait_ms(ms: u64) {
    let start = std::time::Instant::now();
    while start.elapsed() < std::time::Duration::from_millis(ms) {}
}

#[test]
fn sequence() {
    let mut store: Storage = Storage::new(&test_config("test_sequence.db")).unwrap();
    // The first run starts at 0
    assert_eq!(0, store.current(b"test").unwrap());
    for i in 0..100 {
        assert_eq!(i + 1, store.next(b"test").unwrap());
    }
    assert_eq!(100, store.current(b"test").unwrap());
}

#[test]
fn structured() {
    let mut store: Storage = Storage::new(&test_config("test_structured.db")).unwrap();
    let test = (1u32, "test".to_string());
    let bytes = bincode::serialize(&test).unwrap();
    store.insert(b"Test", b"test", &bytes).unwrap();
    let got = store.get(b"Test", b"test").unwrap().unwrap();
    assert_eq!(test, bincode::deserialize::<(u32, String)>(&got).unwrap());
    store.insert(b"Test", b"test", &bytes).unwrap();
    let got = store.get(b"Test", b"test").unwrap().unwrap();
    assert_eq!(test, bincode::deserialize::<(u32, String)>(&got).unwrap());
    store.remove(b"Test", b"test").unwrap();
    assert_eq!(None, store.get(b"Test", b"test").unwrap());
}

#[test]
fn insert_then_get_after_flush() {
    let mut store = Storage::new(&test_config("test_write_through.db")).unwrap();
    store.insert(b"items", b"alpha", b"first value").unwrap();
    // Served while the entry may still sit in the cache.
    assert_eq!(store.get(b"items", b"alpha").unwrap().unwrap(), b"first value");
    // And again after both tiers ran their maintenance.
    store.run_pending_tasks().unwrap();
    assert_eq!(store.get(b"items", b"alpha").unwrap().unwrap(), b"first value");
    assert!(store.contains_key(b"items", b"alpha").unwrap());
}

#[test]
fn remove_makes_absent_and_is_idempotent() {
    let mut store = Storage::new(&test_config("test_remove.db")).unwrap();
    store.insert(b"items", b"gone", b"soon").unwrap();
    store.remove(b"items", b"gone").unwrap();
    assert_eq!(None, store.get(b"items", b"gone").unwrap());
    assert!(!store.contains_key(b"items", b"gone").unwrap());
    // A second remove of the same absent record is a no-op, not an error.
    store.remove(b"items", b"gone").unwrap();
    assert_eq!(None, store.get(b"items", b"gone").unwrap());
    assert!(!store.contains_key(b"items", b"gone").unwrap());
}

#[test]
fn explicit_removal_reaches_store() {
    let mut store = Storage::new(&test_config("test_explicit.db")).unwrap();
    store.insert(b"items", b"doomed", b"payload").unwrap();
    store.remove(b"items", b"doomed").unwrap();
    // Drain the explicit-eviction notification; its second delete must
    // be idempotent.
    store.run_pending_tasks().unwrap();
    assert_eq!(None, store.get(b"items", b"doomed").unwrap());
    assert!(!store.contains_key(b"items", b"doomed").unwrap());
}

#[test]
fn capacity_eviction_keeps_store() {
    let mut config = test_config("test_capacity.db");
    config.cache_max_capacity = Some(256);
    let mut store = Storage::new(&config).unwrap();
    store.insert(b"items", b"precious", b"must survive eviction").unwrap();
    // Blow well past the weighted capacity so the cache must shed
    // entries for room.
    for i in 0..64u32 {
        let key = format!("filler-{}", i);
        store
            .insert(b"items", key.as_bytes(), &[0u8; 64])
            .unwrap();
    }
    store.run_pending_tasks().unwrap();
    // Capacity pressure alone never deletes durable data: the record
    // is still served, from the store if the cache dropped it.
    assert_eq!(
        store.get(b"items", b"precious").unwrap().unwrap(),
        b"must survive eviction"
    );
}

#[test]
fn ttl_expiry_removes_both_tiers() {
    let mut config = test_config("test_ttl.db");
    config.cache_time_to_live = Some(1);
    let mut store = Storage::new(&config).unwrap();
    store.insert(b"items", b"ephemeral", b"short lived").unwrap();
    wait_ms(1300);
    // Maintenance observes the expiry and propagates the deletion to
    // the persistent store.
    store.run_pending_tasks().unwrap();
    assert_eq!(None, store.get(b"items", b"ephemeral").unwrap());
    assert!(!store.contains_key(b"items", b"ephemeral").unwrap());
}

#[test]
fn recovery_warms_cache() {
    let path = "test_recovery.db";
    {
        let mut config = test_config(path);
        config.temporary = false;
        let mut store = Storage::new(&config).unwrap();
        store.insert(b"records", b"k1", b"v1").unwrap();
        store.insert(b"records", b"k2", b"v2").unwrap();
        store.insert(b"records", b"k3", b"v3").unwrap();
        store.run_pending_tasks().unwrap();
    }
    let mut config = test_config(path);
    config.temporary = false;
    let mut store = Storage::new(&config).unwrap();
    store.recover(b"records").unwrap();
    assert_eq!(store.get(b"records", b"k1").unwrap().unwrap(), b"v1");
    assert_eq!(store.get(b"records", b"k2").unwrap().unwrap(), b"v2");
    assert_eq!(store.get(b"records", b"k3").unwrap().unwrap(), b"v3");
}

#[test]
fn recover_root_tolerates_empty_store() {
    let mut store = Storage::new(&test_config("test_recover_root.db")).unwrap();
    store.recover_root().unwrap();
    store.recover(b"nothing_here").unwrap();
    assert_eq!(None, store.get(b"nothing_here", b"absent").unwrap());
}

#[test]
fn sequences_are_independent_and_durable() {
    let mut store = Storage::new(&test_config("test_seq_indep.db")).unwrap();
    assert_eq!(1, store.next(b"alpha").unwrap());
    assert_eq!(2, store.next(b"alpha").unwrap());
    assert_eq!(1, store.next(b"beta").unwrap());
    assert_eq!(2, store.current(b"alpha").unwrap());
    assert_eq!(1, store.current(b"beta").unwrap());
    assert_eq!(0, store.current(b"gamma").unwrap());
    // Sequences live outside the record namespaces and survive
    // maintenance untouched.
    store.run_pending_tasks().unwrap();
    assert_eq!(2, store.current(b"alpha").unwrap());
}

#[test]
fn open_error_surfaces() {
    let config = test_config("test_locked.db");
    let _holder = Storage::new(&config).unwrap();
    // The store is locked by the first handle; a second open fails and
    // the failure surfaces as a result, not a panic.
    let second = Storage::new(&config);
    assert!(matches!(second, Err(StorageError::Io)));
}

#[test]
fn codec_roundtrip_exact() {
    assert_eq!(to_be4(0x0102_0304), vec![1, 2, 3, 4]);
    assert_eq!(to_be4(0), vec![0, 0, 0, 0]);
    assert_eq!(to_be4(u32::MAX), vec![255, 255, 255, 255]);
    assert_eq!(from_be4(&[0, 0, 0, 7]), 7);
    assert_eq!(from_be4(&[1, 2, 3, 4]), 0x0102_0304);
    assert_eq!(from_be4(&to_be4(123_456_789)), 123_456_789);
}

#[test]
fn composite_key_encoding_exact() {
    assert_eq!(composite_key(b"ns", b"key"), b":/ns/key".to_vec());
    match parse_composite_key(b":/ns/key") {
        ParsedKey::Named { ns, key } => {
            assert_eq!(ns, b"ns".to_vec());
            assert_eq!(key, b"key".to_vec());
        }
        _ => panic!("expected a named key"),
    }
    // A raw key may itself contain the separator; the split is at the
    // first one.
    match parse_composite_key(b":/ns/a/b") {
        ParsedKey::Named { ns, key } => {
            assert_eq!(ns, b"ns".to_vec());
            assert_eq!(key, b"a/b".to_vec());
        }
        _ => panic!("expected a named key"),
    }
    match parse_composite_key(b"plain-root-key") {
        ParsedKey::Root { key } => assert_eq!(key, b"plain-root-key".to_vec()),
        _ => panic!("expected a root key"),
    }
    assert!(matches!(parse_composite_key(b":/noslash"), ParsedKey::Malformed));
    assert!(bytes_eq(b"same", b"same"));
    assert!(!bytes_eq(b"same", b"other"));
}

#[test]
fn eviction_cause_policy() {
    assert!(should_delete(&EvictionCause::Explicit));
    assert!(should_delete(&EvictionCause::Expired));
    assert!(!should_delete(&EvictionCause::Size));
    assert!(!should_delete(&EvictionCause::Replaced));
}

#[test]
fn eviction_policy_applied_directly() {
    let mut store = Storage::new(&test_config("test_policy_direct.db")).unwrap();
    store.insert(b"items", b"a", b"va").unwrap();
    store.insert(b"items", b"b", b"vb").unwrap();
    // A capacity-pressure eviction never reaches the store: the record
    // stays retrievable.
    store.apply_eviction(EvictionEvent { key: composite_key(b"items", b"a"), cause: EvictionCause::Size });
    assert_eq!(store.get(b"items", b"a").unwrap().unwrap(), b"va");
    // An expiry ends the record's life in both tiers.
    store.apply_eviction(EvictionEvent { key: composite_key(b"items", b"b"), cause: EvictionCause::Expired });
    assert_eq!(None, store.get(b"items", b"b").unwrap());
    // A malformed or reserved composite key is skipped, not a panic.
    store.apply_eviction(EvictionEvent { key: b":/noslash".to_vec(), cause: EvictionCause::Explicit });
    store.apply_eviction(EvictionEvent { key: composite_key(b"SEQUENCE", b"x"), cause: EvictionCause::Explicit });
    assert_eq!(store.get(b"items", b"a").unwrap().unwrap(), b"va");
}

#[test]
fn namespace_validation() {
    assert!(valid_namespace(b"items"));
    assert!(valid_namespace(b""));
    assert!(!valid_namespace(b"bad/ns"));
    assert!(!valid_namespace(b"SEQUENCE"));
    assert!(!valid_namespace(b"__sled__default"));
}

#[test]
fn default_config_values() {
    let c = StorageConfig::default();
    assert_eq!(c.db_path.as_str(), "default.db");
    assert_eq!(c.cache_num_segments, 1);
    assert!(c.cache_max_capacity.is_none());
    assert!(c.cache_time_to_live.is_none());
    assert!(c.cache_time_to_idle.is_none());
    assert!(!c.temporary);
}
