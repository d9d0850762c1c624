use bytes::Bytes;
use spatio::aof::AOFCommand;
use spatio::order::calculate_prefix_end;
use spatio::storage::{MemoryBackend, StorageOp};
use spatio::types::DbItem;

fn item(v: &[u8]) -> DbItem {
    DbItem { value: Bytes::copy_from_slice(v), expires_at: None }
}

#[test]
fn test_memory_backend_basic_ops() {
    let mut backend = MemoryBackend::new();

    let key = b"test_key";
    let item = DbItem { value: b"test_value".to_vec().into(), expires_at: None };

    // Test put and get
    backend.put(key, &item).unwrap();
    let retrieved = backend.get(key).unwrap().unwrap();
    assert_eq!(retrieved.value, item.value);

    // Test contains
    assert!(backend.contains_key(key).unwrap());
    assert!(!backend.contains_key(b"nonexistent").unwrap());

    // Test delete
    let deleted = backend.delete(key).unwrap().unwrap();
    assert_eq!(deleted.value, item.value);
    assert!(!backend.contains_key(key).unwrap());
}

#[test]
fn test_memory_backend_prefix_scan() {
    let mut backend = MemoryBackend::new();
    let item = item(b"value");

    backend.put(b"prefix:key1", &item).unwrap();
    backend.put(b"prefix:key2", &item).unwrap();
    backend.put(b"other:key", &item).unwrap();

    let keys = backend.keys_with_prefix(b"prefix:").unwrap();
    assert_eq!(keys.len(), 2);

    let scan_result = backend.scan_prefix(b"prefix:").unwrap();
    assert_eq!(scan_result.len(), 2);
}

#[test]
fn test_prefix_scan_edge_cases() {
    let mut backend = MemoryBackend::new();
    let item = item(b"value");

    // Test empty prefix
    backend.put(b"a", &item).unwrap();
    backend.put(b"b", &item).unwrap();
    let all_keys = backend.scan_prefix(b"").unwrap();
    assert_eq!(all_keys.len(), 2);

    // Test prefix with 0xFF bytes
    backend.put(b"test\xff\xffa", &item).unwrap();
    backend.put(b"test\xff\xffb", &item).unwrap();
    backend.put(b"test\xff\xff\xff", &item).unwrap();
    backend.put(b"testb", &item).unwrap();

    let xff_prefix_scan = backend.scan_prefix(b"test\xff\xff").unwrap();
    assert_eq!(xff_prefix_scan.len(), 3); // Should match all test\xff\xff* keys

    // Test exact prefix boundaries
    backend.put(b"abc", &item).unwrap();
    backend.put(b"abcd", &item).unwrap();
    backend.put(b"abd", &item).unwrap();

    let abc_scan = backend.scan_prefix(b"abc").unwrap();
    assert_eq!(abc_scan.len(), 2); // abc and abcd, not abd

    // Test prefix that matches no keys
    let no_match_scan = backend.scan_prefix(b"nonexistent").unwrap();
    assert_eq!(no_match_scan.len(), 0);

    // Test single character prefix
    let a_prefix_scan = backend.scan_prefix(b"a").unwrap();
    assert_eq!(a_prefix_scan.len(), 4); // abc, abcd, abd, and original "a"
}

#[test]
fn test_prefix_scan_ordering() {
    let mut backend = MemoryBackend::new();
    let item = item(b"value");

    // Insert keys in non-sorted order
    backend.put(b"prefix:z", &item).unwrap();
    backend.put(b"prefix:a", &item).unwrap();
    backend.put(b"prefix:m", &item).unwrap();
    backend.put(b"different:key", &item).unwrap();

    let scan_result = backend.scan_prefix(b"prefix:").unwrap();
    assert_eq!(scan_result.len(), 3);

    // Verify keys are returned in sorted order
    let keys: Vec<_> = scan_result.iter().map(|(k, _)| k).collect();
    assert_eq!(keys[0].as_ref(), b"prefix:a");
    assert_eq!(keys[1].as_ref(), b"prefix:m");
    assert_eq!(keys[2].as_ref(), b"prefix:z");
}

#[test]
fn test_prefix_scan_performance_demo() {
    let mut backend = MemoryBackend::new();
    let item = item(b"value");

    for i in 0..1000 {
        if i < 10 {
            let key = format!("target:key_{:03}", i);
            backend.put(key.as_bytes(), &item).unwrap();
        }

        let noise_key = format!("noise_{:03}:data", i);
        backend.put(noise_key.as_bytes(), &item).unwrap();

        let other_key = format!("zzz_other_{:03}", i);
        backend.put(other_key.as_bytes(), &item).unwrap();
    }

    let target_scan = backend.scan_prefix(b"target:").unwrap();
    assert_eq!(target_scan.len(), 10);

    let target_keys = backend.keys_with_prefix(b"target:").unwrap();
    assert_eq!(target_keys.len(), 10);

    assert_eq!(backend.len().unwrap(), 2010); // Total keys in database
}

#[test]
fn test_memory_backend_ttl_cleanup() {
    let mut backend = MemoryBackend::new();

    let now: u128 = 1_000_000_000_000;
    let past = now - 60_000_000_000;
    let future = now + 60_000_000_000;

    let expired_item = DbItem { value: b"expired".to_vec().into(), expires_at: Some(past) };
    let valid_item = DbItem { value: b"valid".to_vec().into(), expires_at: Some(future) };

    backend.put(b"expired_key", &expired_item).unwrap();
    backend.put(b"valid_key", &valid_item).unwrap();

    let cleaned = backend.cleanup_expired(now).unwrap();
    assert_eq!(cleaned, 1);
    assert!(!backend.contains_key(b"expired_key").unwrap());
    assert!(backend.contains_key(b"valid_key").unwrap());
}

#[test]
fn test_storage_batch_operations() {
    let mut backend = MemoryBackend::new();

    let ops = vec![
        StorageOp::Put {
            key: b"key1".to_vec().into(),
            item: DbItem { value: b"value1".to_vec().into(), expires_at: None },
        },
        StorageOp::Put {
            key: b"key2".to_vec().into(),
            item: DbItem { value: b"value2".to_vec().into(), expires_at: None },
        },
        StorageOp::Delete { key: b"key1".to_vec().into() },
    ];

    backend.batch(&ops).unwrap();

    assert!(!backend.contains_key(b"key1").unwrap());
    assert!(backend.contains_key(b"key2").unwrap());
}

#[test]
fn prefix_end_examples() {
    assert_eq!(calculate_prefix_end(b"abc"), b"abd".to_vec());
    assert_eq!(calculate_prefix_end(b"test\xff"), b"tesu".to_vec());
    assert_eq!(calculate_prefix_end(b"abc\xff\xff"), b"abd".to_vec());
    assert_eq!(calculate_prefix_end(b"\xff\xff"), Vec::<u8>::new());
    assert_eq!(calculate_prefix_end(b""), Vec::<u8>::new());
}

#[test]
fn prefix_end_bounds_the_prefixed_keys() {
    let prefix: &[u8] = b"ab\xff";
    let end = calculate_prefix_end(prefix);
    for key in [&b"ab\xff"[..], b"ab\xff\x00", b"ab\xff\xff\xff", b"ab\xfe", b"ac", b"ab"] {
        let in_range = key >= prefix && (end.is_empty() || key < end.as_slice());
        assert_eq!(in_range, key.starts_with(prefix), "key {:?}", key);
    }
}

#[test]
fn stats_count_keys_operations_and_sizes() {
    let mut backend = MemoryBackend::with_capacity(10);
    assert_eq!(backend.stats().unwrap().size_bytes, 0);
    backend.put(b"k1", &item(b"abc")).unwrap();
    backend.put(b"k2", &item(b"de")).unwrap();
    backend.put(b"k1", &item(b"x")).unwrap();
    backend.delete(b"missing").unwrap();
    let stats = backend.stats().unwrap();
    assert_eq!(stats.key_count, 2);
    assert_eq!(stats.operations_count, 4);
    assert_eq!(stats.size_bytes, 2 + 1 + 2 + 2);
    assert!(!backend.is_empty().unwrap());
    backend.close().unwrap();
    assert!(backend.is_empty().unwrap());
    assert_eq!(backend.stats().unwrap().operations_count, 0);
}

#[test]
fn iter_lists_entries_in_key_order() {
    let mut backend = MemoryBackend::default();
    backend.put(b"b", &item(b"2")).unwrap();
    backend.put(b"a", &item(b"1")).unwrap();
    backend.sync().unwrap();
    let all = backend.iter().unwrap();
    let keys: Vec<&[u8]> = all.iter().map(|(k, _)| k.as_ref()).collect();
    assert_eq!(keys, vec![&b"a"[..], &b"b"[..]]);
    assert_eq!(all[1].1.value, Bytes::from("2"));
}

#[test]
fn cleanup_adds_to_expired_count() {
    let mut backend = MemoryBackend::new();
    backend
        .put(b"gone", &DbItem { value: Bytes::from("v"), expires_at: Some(5) })
        .unwrap();
    backend
        .put(b"kept", &DbItem { value: Bytes::from("v"), expires_at: Some(50) })
        .unwrap();
    assert_eq!(backend.cleanup_expired(5).unwrap(), 1);
    assert_eq!(backend.stats().unwrap().expired_count, 1);
    assert_eq!(backend.stats().unwrap().key_count, 1);
}

#[test]
fn replayed_commands_are_puts_and_deletes() {
    let mut backend = MemoryBackend::new();
    backend.apply_all(vec![
        AOFCommand::SetItem { key: Bytes::from("a"), value: Bytes::from("1"), expires_at: Some(2) },
        AOFCommand::SetItem { key: Bytes::from("b"), value: Bytes::from("2"), expires_at: None },
        AOFCommand::Delete { key: Bytes::from("b") },
    ]);
    let a = backend.get(b"a").unwrap().unwrap();
    assert_eq!(a.value, Bytes::from("1"));
    assert_eq!(a.expires_at, Some(2_000_000_000));
    assert!(backend.get(b"b").unwrap().is_none());
    let stats = backend.stats().unwrap();
    assert_eq!(stats.key_count, 1);
    assert_eq!(stats.operations_count, 3);
}
