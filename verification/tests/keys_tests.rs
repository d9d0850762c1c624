use bytes::Bytes;
use spatio::keys::{geohash_cells_overlap, s2_cell_value, trajectory_key, trajectory_prefix, SpatialKey};
use spatio::stats::{classify_key, spatial_stats, IndexStats, KeyClass};
use spatio::store::Store;
use spatio::trajectory::trajectory_points;

#[test]
fn spatial_test_spatial_key_generation() {
    let geohash_key = SpatialKey::geohash("cities", "dr5regw3");
    assert_eq!(geohash_key, "cities:gh:dr5regw3");

    let s2_key = SpatialKey::s2_cell("sensors", 1234567890);
    assert_eq!(s2_key, "sensors:s2:1234567890");
}

#[test]
fn s2_keys_of_extreme_ids() {
    assert_eq!(SpatialKey::s2_cell("p", 0), "p:s2:0");
    assert_eq!(SpatialKey::s2_cell("p", u64::MAX), "p:s2:18446744073709551615");
}

#[test]
fn trajectory_keys_are_zero_padded() {
    assert_eq!(trajectory_prefix("drone_001"), "traj:drone_001:");
    assert_eq!(trajectory_key("drone_001", 1000, 2), "traj:drone_001:0000001000:000002");
    assert_eq!(
        trajectory_key("v", 12_345_678_901, 1_234_567),
        "traj:v:12345678901:1234567"
    );
}

fn point_value(tag: u8, ts: u64) -> Vec<u8> {
    let mut v = vec![tag; 16];
    v.extend_from_slice(&ts.to_le_bytes());
    v
}

#[test]
fn trajectory_query_filters_window_and_orders_by_time() {
    let mut store = Store::new();
    let points = [(1u8, 1060u64), (2, 1000), (3, 1120), (4, 900), (5, 1060)];
    for (i, (tag, ts)) in points.iter().enumerate() {
        let key = trajectory_key("vehicle:1", i as u64 * 7 + 3, i as u64);
        store.insert(key.as_bytes(), &point_value(*tag, *ts), None, 0);
    }
    // Another object and a value too short to decode.
    store.insert(trajectory_key("vehicle:2", 1, 0).as_bytes(), &point_value(9, 1000), None, 0);
    store.insert(b"traj:vehicle:1:zzz", b"short", None, 0);

    let found = trajectory_points(&store, "vehicle:1", 1000, 1100, 0);
    let got: Vec<(u8, u64)> = found.iter().map(|(v, t)| (v[0], *t)).collect();
    assert_eq!(got, vec![(2, 1000), (1, 1060), (5, 1060)]);
    assert_eq!(found[0].0, Bytes::from(point_value(2, 1000)));
}

#[test]
fn trajectory_points_of_an_extended_id_are_not_taken() {
    let mut store = Store::new();
    store.insert(trajectory_key("v", 5, 0).as_bytes(), &point_value(1, 5), None, 0);
    store.insert(trajectory_key("v:1", 6, 0).as_bytes(), &point_value(2, 6), None, 0);
    store.insert(trajectory_key("v:0000000007", 7, 0).as_bytes(), &point_value(3, 7), None, 0);
    let found = trajectory_points(&store, "v", 0, 10, 0);
    let got: Vec<(u8, u64)> = found.iter().map(|(v, t)| (v[0], *t)).collect();
    assert_eq!(got, vec![(1, 5)]);
    let found = trajectory_points(&store, "v:1", 0, 10, 0);
    let got: Vec<(u8, u64)> = found.iter().map(|(v, t)| (v[0], *t)).collect();
    assert_eq!(got, vec![(2, 6)]);
    // Timestamps of more than ten digits still belong to the object.
    store.insert(trajectory_key("w", 12_345_678_901, 0).as_bytes(), &point_value(4, 8), None, 0);
    assert_eq!(trajectory_points(&store, "w", 0, 10, 0).len(), 1);
}

#[test]
fn expired_trajectory_points_are_skipped() {
    let mut store = Store::new();
    let opts = spatio::types::SetOptions::with_expiration(50);
    store.insert(trajectory_key("o", 1, 0).as_bytes(), &point_value(1, 5), Some(opts), 0);
    store.insert(trajectory_key("o", 2, 1).as_bytes(), &point_value(2, 6), None, 0);
    let found = trajectory_points(&store, "o", 0, 100, 60);
    assert_eq!(found.len(), 1);
    assert_eq!(found[0].1, 6);
}

#[test]
fn keys_are_classified_for_statistics() {
    assert!(matches!(classify_key(b"landmark_gh8:gh:dr5regw3"), KeyClass::GeohashIndex(Some(8))));
    assert!(matches!(classify_key(b"landmark_s216:s2:123"), KeyClass::S2Index(Some(16))));
    assert!(matches!(classify_key(b"x_s2999:s2:1"), KeyClass::S2Index(None)));
    assert!(matches!(classify_key(b"cities:gh:dr5"), KeyClass::GeohashIndex(None)));
    assert!(matches!(classify_key(b"weather:grid:8:1:2"), KeyClass::GridIndex));
    assert!(matches!(classify_key(b"landmark_001"), KeyClass::Point));
    assert!(matches!(classify_key(b"a_grid_b"), KeyClass::Other));
}

#[test]
fn spatial_stats_count_by_kind() {
    let mut store = Store::new();
    for key in [
        "landmark_001",
        "landmark_001_gh8:gh:dr5regw3",
        "landmark_002_gh8:gh:dr5regw4",
        "landmark_001_gh6:gh:dr5reg",
        "landmark_001_s216:s2:1",
        "w:grid:1",
        "plain",
    ] {
        store.insert(key.as_bytes(), b"d", None, 0);
    }
    let stats = spatial_stats(&store);
    assert_eq!(stats.total_points, 2);
    assert_eq!(stats.grid_indexes, 1);
    assert_eq!(stats.geohash_indexes.get(&8), Some(&2));
    assert_eq!(stats.geohash_indexes.get(&6), Some(&1));
    assert_eq!(stats.s2_indexes.get(&16), Some(&1));
    assert_eq!(stats.geohash_indexes.len(), 2);
}

#[test]
fn index_stats_sum_sizes() {
    let s = IndexStats::from_index_sizes(&[3, 0, 5]);
    assert_eq!(s.index_count, 3);
    assert_eq!(s.total_points, 8);
    let empty = IndexStats::from_index_sizes(&[]);
    assert_eq!(empty.index_count, 0);
    assert_eq!(empty.total_points, 0);
}

#[test]
fn s2_cell_values_pack_level_row_and_column() {
    assert_eq!(s2_cell_value(16, 3, 5).unwrap(), (16u64 << 56) | (3 << 28) | 5);
    match s2_cell_value(31, 0, 0) {
        Err(spatio::error::SpatioError::Other(msg)) => assert_eq!(msg, "S2 level must be <= 30"),
        _ => panic!("expected the level to be refused"),
    }
}

#[test]
fn geohash_cells_overlap_by_prefix() {
    assert!(geohash_cells_overlap("dr5regw3", "dr5reg"));
    assert!(geohash_cells_overlap("dr5", "dr5regw3"));
    assert!(!geohash_cells_overlap("dr5regw3", "dr5rex"));
}

#[test]
fn trajectory_keys_sort_by_time_then_index() {
    let a = trajectory_key("o", 999, 5);
    let b = trajectory_key("o", 1000, 0);
    let c = trajectory_key("o", 1000, 1);
    assert!(a.as_bytes() < b.as_bytes());
    assert!(b.as_bytes() < c.as_bytes());
    assert!(!(c.as_bytes() < b.as_bytes()));
}
