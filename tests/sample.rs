use cave_control::sample::{fill_sample_data, next_sample, random_walk, SAMPLE_COUNT, SAMPLE_SPACING};
use cave_control::store::{ReadingStore, StoreError};

#[test]
fn walk_step_is_clamped() {
    assert_eq!(next_sample(5000, 150, 3000, 7000), 5150);
    assert_eq!(next_sample(6900, 199, 3000, 7000), 7000);
    assert_eq!(next_sample(3100, -199, 3000, 7000), 3000);
    assert_eq!(next_sample(i64::MAX, i64::MAX, 0, 10), 10);
    assert_eq!(next_sample(i64::MIN, -1, -5, 5), -5);
    // bounds the wrong way round: raised to the lower, then lowered to the upper
    assert_eq!(next_sample(0, 0, 10, 5), 5);
    assert_eq!(next_sample(20, 0, 10, 5), 5);
}

#[test]
fn random_walk_moves_less_than_a_step() {
    let mut v: i64 = 5000;
    for _ in 0..200 {
        let next = random_walk(v, 200, 3000, 7000);
        assert!((3000..=7000).contains(&next));
        assert!((-200..200).contains(&(next - v)));
        v = next;
    }
}

#[test]
fn sample_data_fills_both_series() {
    let mut s = ReadingStore::new();
    let now: i64 = 1_600_000_000;
    assert_eq!(fill_sample_data(&mut s, now), Ok(()));
    let temps = s.query_range("temp-inside");
    let hums = s.query_range("humidity-inside");
    assert_eq!(temps.len(), SAMPLE_COUNT);
    assert_eq!(hums.len(), SAMPLE_COUNT);
    assert_eq!(temps[0].0, now - SAMPLE_SPACING * (SAMPLE_COUNT as i64 - 1));
    assert_eq!(temps[SAMPLE_COUNT - 1].0, now);
    assert!(temps.iter().all(|(_, v)| (3000..=7000).contains(v)));
    assert!(hums.iter().all(|(_, v)| (1000..=9000).contains(v)));
    assert!(temps.windows(2).all(|w| (w[1].1 - w[0].1).abs() <= 200));
    assert!(hums.windows(2).all(|w| (w[1].1 - w[0].1).abs() <= 400));
    // a second fill finds its keys taken
    assert_eq!(fill_sample_data(&mut s, now), Err(StoreError::DuplicateKey));
}

#[test]
fn sample_fill_stops_at_a_taken_key() {
    let mut s = ReadingStore::new();
    let now: i64 = 1_600_000_000;
    // the humidity key of the third sample is taken
    s.append("humidity-inside", now - 2 * SAMPLE_SPACING, -1).unwrap();
    assert_eq!(fill_sample_data(&mut s, now), Err(StoreError::DuplicateKey));
    let temps = s.query_range("temp-inside");
    let hums = s.query_range("humidity-inside");
    assert_eq!(temps.iter().map(|p| p.0).collect::<Vec<_>>(), vec![now - 600, now - 300, now]);
    assert_eq!(hums.len(), 3);
    assert_eq!(hums[0], (now - 600, -1));
}
