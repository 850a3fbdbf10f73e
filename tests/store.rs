use cave_control::store::{ReadingStore, RetentionPolicy, StoreError};

#[test]
fn query_lists_appended_points_by_timestamp() {
    let mut s = ReadingStore::new();
    assert_eq!(s.append("temp-a", 30, 300), Ok(()));
    assert_eq!(s.append("temp-a", 10, 100), Ok(()));
    assert_eq!(s.append("humidity-a", 20, 5), Ok(()));
    assert_eq!(s.append("temp-a", 20, 200), Ok(()));
    assert_eq!(s.append("temp-b", 15, 7), Ok(()));
    assert_eq!(s.query_range("temp-a"), vec![(10, 100), (20, 200), (30, 300)]);
    assert_eq!(s.query_range("temp-b"), vec![(15, 7)]);
    assert_eq!(s.query_range("humidity-a"), vec![(20, 5)]);
}

#[test]
fn query_of_unknown_series_is_empty() {
    let mut s = ReadingStore::new();
    assert_eq!(s.query_range("temp-a"), Vec::<(i64, i64)>::new());
    assert_eq!(s.append("temp-a", 1, 1), Ok(()));
    assert_eq!(s.query_range("temp-ab"), Vec::<(i64, i64)>::new());
    assert_eq!(s.query_range(""), Vec::<(i64, i64)>::new());
}

#[test]
fn duplicate_key_is_refused_and_keeps_the_value() {
    let mut s = ReadingStore::new();
    assert_eq!(s.append("temp-a", 5, 42), Ok(()));
    assert_eq!(s.append("temp-a", 5, 99), Err(StoreError::DuplicateKey));
    assert_eq!(s.query_range("temp-a"), vec![(5, 42)]);
    assert!(s.contains("temp-a", 5));
    assert!(!s.contains("temp-a", 6));
    // the same timestamp under another series is a distinct key
    assert_eq!(s.append("temp-b", 5, 1), Ok(()));
}

#[test]
fn extreme_timestamps_are_ordered() {
    let mut s = ReadingStore::new();
    assert_eq!(s.append("x", i64::MAX, 1), Ok(()));
    assert_eq!(s.append("x", i64::MIN, 2), Ok(()));
    assert_eq!(s.append("x", 0, 3), Ok(()));
    assert_eq!(s.query_range("x"), vec![(i64::MIN, 2), (0, 3), (i64::MAX, 1)]);
}

#[test]
fn retention_drops_only_older_readings() {
    let mut s = ReadingStore::new();
    for t in [5, 1, 9, 3] {
        s.append("a", t, t * 10).unwrap();
        s.append("b", t, t).unwrap();
    }
    s.apply_retention(RetentionPolicy::KeepAll);
    assert_eq!(s.query_range("a").len(), 4);
    s.apply_retention(RetentionPolicy::KeepSince(4));
    assert_eq!(s.query_range("a"), vec![(5, 50), (9, 90)]);
    assert_eq!(s.query_range("b"), vec![(5, 5), (9, 9)]);
    assert!(!s.contains("a", 3));
    // a dropped key can be stored again
    assert_eq!(s.append("a", 3, 7), Ok(()));
    s.apply_retention(RetentionPolicy::KeepSince(100));
    assert!(s.query_range("a").is_empty());
}
