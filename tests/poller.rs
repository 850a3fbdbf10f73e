use cave_control::poller::{
    c_to_f, humidity_series_name, measure, record_reading, retry_after_failure, temp_series_name,
    Measurement, Poller, RawReading, SensorConfig, SensorStep,
};
use cave_control::rules::{ActionRule, Condition, Effect, PinCommand};
use cave_control::store::{ReadingStore, StoreError};

fn sensor() -> SensorConfig {
    SensorConfig {
        name: "inside".to_string(),
        pin: 4,
        actions: vec![ActionRule {
            condition: Condition::Above,
            threshold: 6000,
            effect: Effect::Enable,
            target_pin: 17,
        }],
    }
}

#[test]
fn celsius_to_fahrenheit() {
    assert_eq!(c_to_f(0), 3200);
    assert_eq!(c_to_f(1000), 21200);
    assert_eq!(c_to_f(-400), -4000);
    assert_eq!(c_to_f(215), 7070);
    assert_eq!(
        measure(RawReading { temperature: 200, humidity: 555 }),
        Measurement { temperature: 6800, humidity: 5550 }
    );
}

#[test]
fn series_names() {
    assert_eq!(temp_series_name("inside"), "temp-inside");
    assert_eq!(humidity_series_name("inside"), "humidity-inside");
}

#[test]
fn retries_stop_after_the_budget() {
    for failures in 1..=10 {
        assert!(retry_after_failure(failures));
    }
    assert!(!retry_after_failure(11));
}

#[test]
fn first_read_is_discarded_second_is_recorded() {
    let mut store = ReadingStore::new();
    let mut p = Poller::new();
    let s = sensor();
    let raw = RawReading { temperature: 200, humidity: 500 };
    let r = p.handle_sensor(&mut store, &s, Some(raw), 100);
    assert_eq!(r.step, SensorStep::Discarded(Measurement { temperature: 6800, humidity: 5000 }));
    assert!(r.commands.is_empty());
    assert!(store.query_range("temp-inside").is_empty());
    p.end_cycle();
    let r = p.handle_sensor(&mut store, &s, Some(raw), 200);
    assert_eq!(r.step, SensorStep::Recorded(Measurement { temperature: 6800, humidity: 5000 }, Ok(())));
    assert_eq!(r.commands, vec![PinCommand { pin: 17, high: true }]);
    assert_eq!(store.query_range("temp-inside"), vec![(200, 6800)]);
    assert_eq!(store.query_range("humidity-inside"), vec![(200, 5000)]);
}

#[test]
fn discard_lasts_until_a_cycle_completes_a_read() {
    let mut store = ReadingStore::new();
    let mut p = Poller::new();
    let s = sensor();
    // a cycle in which every read failed leaves the discard pending
    let r = p.handle_sensor(&mut store, &s, None, 100);
    assert_eq!(r.step, SensorStep::Skipped);
    p.end_cycle();
    let r = p.handle_sensor(&mut store, &s, Some(RawReading { temperature: 100, humidity: 100 }), 200);
    assert!(matches!(r.step, SensorStep::Discarded(_)));
    p.end_cycle();
    let r = p.handle_sensor(&mut store, &s, Some(RawReading { temperature: 100, humidity: 100 }), 300);
    assert!(matches!(r.step, SensorStep::Recorded(_, Ok(()))));
}

#[test]
fn eleven_failed_reads_record_nothing() {
    let mut store = ReadingStore::new();
    let mut p = Poller::new();
    let s = sensor();
    p.handle_sensor(&mut store, &s, Some(RawReading { temperature: 100, humidity: 100 }), 50);
    p.end_cycle();
    // every read fails: count the attempts until the poller gives up
    let mut failures: u32 = 0;
    loop {
        failures += 1;
        if !retry_after_failure(failures) {
            break;
        }
    }
    assert_eq!(failures, 11);
    let r = p.handle_sensor(&mut store, &s, None, 100);
    assert_eq!(r.step, SensorStep::Skipped);
    assert!(r.commands.is_empty());
    assert!(store.query_range("temp-inside").is_empty());
    assert!(store.query_range("humidity-inside").is_empty());
}

#[test]
fn duplicate_timestamp_is_reported_and_not_recorded() {
    let mut store = ReadingStore::new();
    assert_eq!(store.append("humidity-inside", 100, 1), Ok(()));
    let m = Measurement { temperature: 7000, humidity: 4000 };
    assert_eq!(record_reading(&mut store, "inside", m, 100), Err(StoreError::DuplicateKey));
    assert!(store.query_range("temp-inside").is_empty());
    assert_eq!(record_reading(&mut store, "inside", m, 101), Ok(()));
    assert_eq!(store.query_range("temp-inside"), vec![(101, 7000)]);

    let mut p = Poller { discard_pending: false, read_this_cycle: false };
    let r = p.handle_sensor(&mut store, &sensor(), Some(RawReading { temperature: 250, humidity: 300 }), 101);
    assert_eq!(
        r.step,
        SensorStep::Recorded(Measurement { temperature: 7700, humidity: 3000 }, Err(StoreError::DuplicateKey))
    );
    // the rules still run on the reading
    assert_eq!(r.commands, vec![PinCommand { pin: 17, high: true }]);
}
