use bytes::Bytes;
use spatio::aof::{delete_command, serialize_command, set_command};
use spatio::batch::AtomicBatch;
use spatio::store::Store;
use spatio::types::{DbItem, SetOptions, NANOS_PER_SEC};

#[test]
fn read_your_write() {
    let mut store = Store::new();
    assert_eq!(store.insert(b"k", b"v1", None, 100), None);
    assert_eq!(store.get(b"k", 100), Some(Bytes::from("v1")));
    assert_eq!(store.insert(b"k", b"v2", None, 200), Some(Bytes::from("v1")));
    assert_eq!(store.get(b"k", 10_000), Some(Bytes::from("v2")));
    assert_eq!(store.get(b"other", 100), None);
    assert_eq!(store.stats().key_count, 1);
}

#[test]
fn ttl_hides_the_value_once_expired() {
    let mut store = Store::new();
    store.insert(b"t", b"v", Some(SetOptions::with_ttl(50)), 1_000);
    assert_eq!(store.get(b"t", 1_049), Some(Bytes::from("v")));
    assert_eq!(store.get(b"t", 1_050), None);
}

#[test]
fn absolute_expiration_takes_precedence_over_ttl() {
    let mut store = Store::new();
    let opts = SetOptions { ttl: Some(10), expires_at: Some(5_000) };
    store.insert(b"u", b"w", Some(opts), 1_000);
    assert_eq!(store.get(b"u", 1_010), Some(Bytes::from("w")));
    assert_eq!(store.get(b"u", 4_999), Some(Bytes::from("w")));
    assert_eq!(store.get(b"u", 5_000), None);
    // An expiration already past hides the value though the TTL has not run out.
    let opts = SetOptions { ttl: Some(3_600), expires_at: Some(1) };
    store.insert(b"k", b"v", Some(opts), 1_000);
    assert_eq!(store.get(b"k", 1_000), None);
}

#[test]
fn zero_ttl_expires_at_once() {
    let mut store = Store::new();
    store.insert(b"z", b"v", Some(SetOptions::with_ttl(0)), 7);
    assert_eq!(store.get(b"z", 7), None);
}

#[test]
fn delete_removes_and_returns_old_value() {
    let mut store = Store::new();
    store.insert(b"a", b"1", None, 0);
    store.insert(b"b", b"2", None, 0);
    assert_eq!(store.delete(b"a"), Some(Bytes::from("1")));
    assert_eq!(store.delete(b"a"), None);
    assert_eq!(store.get(b"a", 0), None);
    assert_eq!(store.get(b"b", 0), Some(Bytes::from("2")));
    assert_eq!(store.len(), 1);
}

#[test]
fn cleanup_removes_only_expired_items() {
    let mut store = Store::new();
    store.insert(b"old", b"1", Some(SetOptions::with_expiration(100)), 0);
    store.insert(b"new", b"2", Some(SetOptions::with_expiration(300)), 0);
    store.insert(b"forever", b"3", None, 0);
    let before: Vec<_> = [b"old", b"new"].iter().map(|k| store.get(*k, 200)).collect();
    store.cleanup_expired(200);
    let after: Vec<_> = [b"old", b"new"].iter().map(|k| store.get(*k, 200)).collect();
    assert_eq!(before, after);
    assert_eq!(store.len(), 2);
    assert!(store.get_item(b"old").is_none());
    assert!(store.get_item(b"new").is_some());
}

#[test]
fn prefix_values_skip_expired_and_keep_key_order() {
    let mut store = Store::new();
    store.insert(b"p:b", b"2", None, 0);
    store.insert(b"p:a", b"1", None, 0);
    store.insert(b"p:c", b"3", Some(SetOptions::with_expiration(10)), 0);
    store.insert(b"q:a", b"9", None, 0);
    let found = store.live_entries_with_prefix(b"p:", 20);
    assert_eq!(
        found,
        vec![(Bytes::from("p:a"), Bytes::from("1")), (Bytes::from("p:b"), Bytes::from("2"))]
    );
    let keys = store.keys();
    assert_eq!(keys.len(), 4);
    assert_eq!(keys[0], Bytes::from("p:a"));
}

#[test]
fn test_atomic_operations() {
    let mut store = Store::new();
    let mut batch = AtomicBatch::new();
    batch.insert(b"key1", b"value1", None).unwrap();
    batch.insert(b"key2", b"value2", None).unwrap();
    batch.insert(b"key3", b"value3", None).unwrap();
    assert_eq!(batch.len(), 3);
    batch.commit(&mut store, 0).unwrap();

    assert_eq!(store.get(b"key1", 0).unwrap(), Bytes::from("value1"));
    assert_eq!(store.get(b"key2", 0).unwrap(), Bytes::from("value2"));
    assert_eq!(store.get(b"key3", 0).unwrap(), Bytes::from("value3"));
}

#[test]
fn batch_applies_operations_in_order() {
    let mut store = Store::new();
    store.insert(b"temp_key", b"temp_value", None, 0);
    let mut batch = AtomicBatch::new();
    batch.delete(b"temp_key").unwrap();
    batch.insert(b"new_key", b"new_value", None).unwrap();
    batch.insert(b"x", b"1", None).unwrap();
    batch.delete(b"x").unwrap();
    batch.commit(&mut store, 0).unwrap();
    assert_eq!(store.get(b"temp_key", 0), None);
    assert_eq!(store.get(b"new_key", 0), Some(Bytes::from("new_value")));
    assert_eq!(store.get(b"x", 0), None);
    assert_eq!(batch.log_commands(0).len(), 4);
}

#[test]
fn replayed_log_restores_writes_and_deletes() {
    let exp = 5_000 * NANOS_PER_SEC;
    let opts = SetOptions::with_expiration(exp);
    let mut log = Vec::new();
    for c in [
        set_command(b"a", b"1", None),
        set_command(b"b", b"2", Some(&opts)),
        set_command(b"c", b"3", None),
        delete_command(b"c"),
    ] {
        log.extend_from_slice(&serialize_command(&c));
    }
    let mut store = Store::new();
    store.load_log(&log).unwrap();
    assert_eq!(store.get(b"a", 0), Some(Bytes::from("1")));
    assert_eq!(store.get(b"b", exp - 1), Some(Bytes::from("2")));
    assert_eq!(store.get(b"b", exp), None);
    assert_eq!(store.get(b"c", 0), None);
    assert_eq!(store.len(), 2);
}

#[test]
fn bad_log_leaves_store_unchanged() {
    let mut store = Store::new();
    store.insert(b"keep", b"1", None, 0);
    assert!(store.load_log(&[9u8, 1, 2]).is_err());
    assert_eq!(store.get(b"keep", 0), Some(Bytes::from("1")));
    assert_eq!(store.len(), 1);
}

#[test]
fn items_inserted_directly_keep_their_expiration() {
    let mut store = Store::new();
    let old = store.insert_item(Bytes::from("k"), DbItem::with_expiration(Bytes::from("v"), 10));
    assert!(old.is_none());
    let removed = store.remove_item(b"k").unwrap();
    assert_eq!(removed.expires_at, Some(10));
}

#[test]
fn ttl_runs_from_the_write() {
    let mut store = Store::new();
    store.insert(b"s", b"data", Some(SetOptions::with_ttl(300)), 1_000);
    assert_eq!(store.get(b"s", 1_000), Some(Bytes::from("data")));
    assert_eq!(store.get(b"s", 1_299), Some(Bytes::from("data")));
    assert_eq!(store.get(b"s", 1_300), None);
}

#[test]
fn test_basic_operations() {
    let mut store = Store::new();

    store.insert(b"test_key", b"test_value", None, 0);
    let value = store.get(b"test_key", 0).unwrap();
    assert_eq!(value.as_ref(), b"test_value");

    let deleted = store.delete(b"test_key");
    assert_eq!(deleted.unwrap().as_ref(), b"test_value");
    assert!(store.get(b"test_key", 0).is_none());
}

#[test]
fn batch_log_replays_to_the_committed_state() {
    let mut batch = AtomicBatch::new();
    batch.insert(b"a", b"1", None).unwrap();
    batch.insert(b"b", b"2", Some(SetOptions::with_expiration(9 * NANOS_PER_SEC))).unwrap();
    batch.delete(b"a").unwrap();
    batch.insert(b"c", b"3", None).unwrap();

    let mut committed = Store::new();
    batch.commit(&mut committed, 0).unwrap();

    let mut log = Vec::new();
    for c in batch.log_commands(0) {
        log.extend_from_slice(&serialize_command(&c));
    }
    let mut replayed = Store::new();
    replayed.load_log(&log).unwrap();

    for key in [&b"a"[..], b"b", b"c"] {
        for t in [0, 9 * NANOS_PER_SEC - 1, 9 * NANOS_PER_SEC] {
            assert_eq!(committed.get(key, t), replayed.get(key, t));
        }
    }
    assert_eq!(committed.keys(), replayed.keys());
}

#[test]
fn failed_atomic_work_leaves_the_store_unchanged() {
    let mut store = Store::new();
    store.insert(b"a", b"1", None, 0);
    let mut batch = AtomicBatch::new();
    batch.insert(b"a", b"2", None).unwrap();
    batch.insert(b"b", b"3", None).unwrap();
    let r: Result<u8, &str> = batch.commit_if_ok(Err("refused"), &mut store, 0);
    assert_eq!(r, Err("refused"));
    assert_eq!(store.get(b"a", 0), Some(Bytes::from("1")));
    assert_eq!(store.get(b"b", 0), None);
    let r: Result<u8, &str> = batch.commit_if_ok(Ok(7), &mut store, 0);
    assert_eq!(r, Ok(7));
    assert_eq!(store.get(b"a", 0), Some(Bytes::from("2")));
    assert_eq!(store.get(b"b", 0), Some(Bytes::from("3")));
}

#[test]
fn ttl_writes_are_replayed_with_their_expiry() {
    let now = 10 * NANOS_PER_SEC;
    let mut batch = AtomicBatch::new();
    batch.insert(b"t", b"v", Some(SetOptions::with_ttl(5 * NANOS_PER_SEC))).unwrap();
    let mut committed = Store::new();
    batch.commit(&mut committed, now).unwrap();
    let mut log = Vec::new();
    for c in batch.log_commands(now) {
        log.extend_from_slice(&serialize_command(&c));
    }
    let mut replayed = Store::new();
    replayed.load_log(&log).unwrap();
    for t in [now, 15 * NANOS_PER_SEC - 1, 15 * NANOS_PER_SEC] {
        assert_eq!(committed.get(b"t", t), replayed.get(b"t", t));
    }
    assert_eq!(replayed.get(b"t", 15 * NANOS_PER_SEC), None);
}
