use bytes::Bytes;
use spatio::types::{
    validate_geohash_precision, DbItem, DbStats, SetOptions, SyncPolicy, NANOS_PER_SEC,
};
use std::time::{SystemTime, UNIX_EPOCH};

fn now_nanos() -> u128 {
    SystemTime::now().duration_since(UNIX_EPOCH).unwrap().as_nanos()
}

#[test]
fn test_set_options() {
    let ttl_opts = SetOptions::with_ttl(60 * NANOS_PER_SEC);
    assert!(ttl_opts.ttl.is_some());
    assert!(ttl_opts.expires_at.is_none());

    let exp_opts = SetOptions::with_expiration(now_nanos());
    assert!(exp_opts.ttl.is_none());
    assert!(exp_opts.expires_at.is_some());
}

#[test]
fn test_db_item_expiration() {
    let item = DbItem::new(Bytes::from("test"));
    assert!(!item.is_expired());

    let past = now_nanos() - 60 * NANOS_PER_SEC;
    let expired_item = DbItem::with_expiration(Bytes::from("test"), past);
    assert!(expired_item.is_expired());

    let future = now_nanos() + 60 * NANOS_PER_SEC;
    let future_item = DbItem::with_expiration(Bytes::from("test"), future);
    assert!(!future_item.is_expired());
}

#[test]
fn test_db_item_ttl() {
    let item = DbItem::with_ttl(Bytes::from("test"), 60 * NANOS_PER_SEC);
    let remaining = item.remaining_ttl().unwrap();

    // Should be close to 60 seconds (allowing for small timing differences)
    let secs = remaining / NANOS_PER_SEC;
    assert!(secs >= 59 && secs <= 60);
}

#[test]
fn test_db_item_from_options() {
    let opts = SetOptions::with_ttl(300 * NANOS_PER_SEC);
    let item = DbItem::from_options(Bytes::from("test"), Some(&opts));

    assert!(item.expires_at.is_some());
    assert!(!item.is_expired());
}

#[test]
fn test_db_stats() {
    let mut stats = DbStats::new();
    assert_eq!(stats.operations_count, 0);

    stats.record_operation();
    assert_eq!(stats.operations_count, 1);

    stats.record_expired(5);
    assert_eq!(stats.expired_count, 5);

    stats.set_key_count(100);
    assert_eq!(stats.key_count, 100);
}

#[test]
fn expiration_is_inclusive_of_the_instant() {
    let item = DbItem::with_expiration(Bytes::from("v"), 1_000);
    assert!(!item.is_expired_at(999));
    assert!(item.is_expired_at(1_000));
    assert!(item.is_expired_at(1_001));
    assert_eq!(item.remaining_ttl_at(400), Some(600));
    assert_eq!(item.remaining_ttl_at(2_000), Some(0));
    assert_eq!(DbItem::new(Bytes::from("v")).remaining_ttl_at(5), None);
}

#[test]
fn ttl_counts_from_the_given_time_exactly() {
    let item = DbItem::with_ttl_from(Bytes::from("v"), 50, 1_000);
    assert_eq!(item.expires_at, Some(1_050));
    let far = DbItem::with_ttl_from(Bytes::from("v"), u64::MAX as u128, 10);
    assert_eq!(far.expires_at, Some(u64::MAX as u128 + 10));
    assert!(!far.is_expired_at(u64::MAX as u128));
}

#[test]
fn absolute_expiration_takes_precedence_in_options() {
    let opts = SetOptions { ttl: Some(10), expires_at: Some(500) };
    assert_eq!(opts.effective_expires_at_from(100), Some(500));
    let ttl_only = SetOptions::with_ttl(10);
    assert_eq!(ttl_only.effective_expires_at_from(100), Some(110));
    assert_eq!(SetOptions::default().effective_expires_at_from(100), None);
    let item = DbItem::from_options_at(Bytes::from("v"), Some(&ttl_only), 100);
    assert_eq!(item.expires_at, Some(110));
}

#[test]
fn default_sync_policy_is_every_second() {
    assert_eq!(SyncPolicy::default(), SyncPolicy::EverySecond);
}

#[test]
fn geohash_precision_bounds() {
    assert!(validate_geohash_precision(1).is_ok());
    assert!(validate_geohash_precision(12).is_ok());
    assert_eq!(
        validate_geohash_precision(0),
        Err("Geohash precision must be between 1 and 12".to_string())
    );
    assert!(validate_geohash_precision(13).is_err());
}

#[test]
fn stats_size_and_defaults() {
    let mut stats = DbStats::default();
    stats.set_size_bytes(4096);
    assert_eq!(stats.size_bytes, 4096);
    assert_eq!(stats.key_count, 0);
    assert_eq!(stats.expired_count, 0);
}

#[test]
fn item_expiring_at_the_epoch_has_expired() {
    assert!(DbItem::with_expiration(Bytes::from("v"), 0).is_expired());
}
