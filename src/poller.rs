use vstd::prelude::*;

use crate::rules::{commands_for, evaluate_rules, ActionRule, PinCommand};
use crate::store::{ReadingStore, StoreError};

verus! {

/// How many times a failed sensor read is tried again before the sensor is skipped
/// for the cycle.
pub const MAX_READ_RETRIES: u32 = 10;

/// A sensor's configuration: its name, its data pin and its threshold rules in order.
pub struct SensorConfig {
    pub name: String,
    pub pin: u8,
    pub actions: Vec<ActionRule>,
}

/// What the sensor reported: temperature in tenths of a degree Celsius, relative
/// humidity in tenths of a percent.
#[derive(Debug, PartialEq, Eq, Structural, Clone, Copy)]
pub struct RawReading {
    pub temperature: i32,
    pub humidity: i32,
}

/// A converted reading: temperature in hundredths of a degree Fahrenheit, relative
/// humidity in hundredths of a percent.
#[derive(Debug, PartialEq, Eq, Structural, Clone, Copy)]
pub struct Measurement {
    pub temperature: i64,
    pub humidity: i64,
}

pub open spec fn fahrenheit_centi(celsius_tenths: int) -> int {
    celsius_tenths * 18 + 3200
}

pub open spec fn measurement_of(raw: RawReading) -> Measurement {
    Measurement {
        temperature: fahrenheit_centi(raw.temperature as int) as i64,
        humidity: (raw.humidity as int * 10) as i64,
    }
}

/// `f = c * 1.8 + 32`, from tenths of a degree Celsius to hundredths of a degree
/// Fahrenheit, with no rounding.
pub fn c_to_f(celsius_tenths: i32) -> (r: i64)
    ensures
        r == fahrenheit_centi(celsius_tenths as int),
{
    celsius_tenths as i64 * 18 + 3200
}

/// Converts a sensor report into the units that are stored and compared.
pub fn measure(raw: RawReading) -> (r: Measurement)
    ensures
        r == measurement_of(raw),
{
    Measurement { temperature: c_to_f(raw.temperature), humidity: raw.humidity as i64 * 10 }
}

/// After `failures` consecutive failed reads of a sensor, whether to read it again.
pub fn retry_after_failure(failures: u32) -> (r: bool)
    ensures
        r == (failures <= MAX_READ_RETRIES),
{
    failures <= MAX_READ_RETRIES
}

pub open spec fn temp_series(name: Seq<char>) -> Seq<char> {
    seq!['t', 'e', 'm', 'p', '-'] + name
}

pub open spec fn humidity_series(name: Seq<char>) -> Seq<char> {
    seq!['h', 'u', 'm', 'i', 'd', 'i', 't', 'y', '-'] + name
}

/// The name of the temperature series of sensor `name`.
pub fn temp_series_name(name: &str) -> (r: String)
    ensures
        r@ == temp_series(name@),
{
    let mut s = String::from_str("temp-");
    proof {
        reveal_strlit("temp-");
    }
    s.append(name);
    proof {
        assert(s@ =~= temp_series(name@));
    }
    s
}

/// The name of the humidity series of sensor `name`.
pub fn humidity_series_name(name: &str) -> (r: String)
    ensures
        r@ == humidity_series(name@),
{
    let mut s = String::from_str("humidity-");
    proof {
        reveal_strlit("humidity-");
    }
    s.append(name);
    proof {
        assert(s@ =~= humidity_series(name@));
    }
    s
}

/// Stores both series of sensor `name` at `ts`, or neither: where either key is
/// already stored the store is left as it was.
pub fn record_reading(store: &mut ReadingStore, name: &str, m: Measurement, ts: i64) -> (r: Result<
    (),
    StoreError,
>)
    requires
        old(store).wf(),
    ensures
        final(store).wf(),
        ({
            let kt = (temp_series(name@), ts);
            let kh = (humidity_series(name@), ts);
            if old(store)@.contains_key(kt) || old(store)@.contains_key(kh) {
                r == Err::<(), StoreError>(StoreError::DuplicateKey) && final(store)@ == old(store)@
            } else {
                r == Ok::<(), StoreError>(()) && final(store)@ == old(store)@.insert(kt, m.temperature).insert(kh, m.humidity)
            }
        }),
{
    let t = temp_series_name(name);
    let h = humidity_series_name(name);
    assert(temp_series(name@)[0] != humidity_series(name@)[0]);
    if store.contains(t.as_str(), ts) || store.contains(h.as_str(), ts) {
        return Err(StoreError::DuplicateKey);
    }
    let r1 = store.append(t.as_str(), ts, m.temperature);
    let r2 = store.append(h.as_str(), ts, m.humidity);
    proof {
        assert(r1 is Ok && r2 is Ok);
    }
    Ok(())
}

/// What became of one sensor in a cycle.
#[derive(Debug, PartialEq, Eq)]
pub enum SensorStep {
    /// The read failed past its retries: nothing was recorded.
    Skipped,
    /// The read succeeded during the first cycle with a completed read; it is dropped.
    Discarded(Measurement),
    /// The read succeeded and was handed to the store, with the store's answer.
    Recorded(Measurement, Result<(), StoreError>),
}

/// The outcome of one sensor in a cycle, and the pin commands its rules issued.
pub struct SensorReport {
    pub step: SensorStep,
    pub commands: Vec<PinCommand>,
}

/// The polling state that lasts across cycles.
#[derive(Debug, PartialEq, Eq, Structural, Clone, Copy)]
pub struct Poller {
    /// No cycle with a completed read has ended yet: reads are dropped.
    pub discard_pending: bool,
    /// Some read of the current cycle has completed.
    pub read_this_cycle: bool,
}

/// An event of the polling loop, for stating what a run of them leads to.
pub enum PollEvent {
    /// A sensor read that completed (`true`) or was skipped (`false`).
    Read(bool),
    /// The end of a cycle over all sensors.
    EndCycle,
}

pub open spec fn initial_poller() -> Poller {
    Poller { discard_pending: true, read_this_cycle: false }
}

pub open spec fn after_read(p: Poller, completed: bool) -> Poller {
    if completed {
        Poller { read_this_cycle: true, ..p }
    } else {
        p
    }
}

pub open spec fn after_cycle(p: Poller) -> Poller {
    Poller { discard_pending: p.discard_pending && !p.read_this_cycle, read_this_cycle: false }
}

/// The state after `events`, from `p`.
pub open spec fn run_events(p: Poller, events: Seq<PollEvent>) -> Poller
    decreases events.len(),
{
    if events.len() == 0 {
        p
    } else {
        let q = run_events(p, events.drop_last());
        match events.last() {
            PollEvent::Read(completed) => after_read(q, completed),
            PollEvent::EndCycle => after_cycle(q),
        }
    }
}

impl Poller {
    /// The state at process start: the first cycle with a completed read is dropped.
    pub fn new() -> (r: Poller)
        ensures
            r == initial_poller(),
    {
        Poller { discard_pending: true, read_this_cycle: false }
    }

    /// Handles the outcome of reading `sensor` (`None` once its retries are spent):
    /// converts a completed read, then drops it, or records it at `ts` and evaluates
    /// the sensor's rules on its temperature.
    pub fn handle_sensor(
        &mut self,
        store: &mut ReadingStore,
        sensor: &SensorConfig,
        outcome: Option<RawReading>,
        ts: i64,
    ) -> (r: SensorReport)
        requires
            old(store).wf(),
        ensures
            final(store).wf(),
            *final(self) == after_read(*old(self), outcome is Some),
            outcome is None ==> r.step == SensorStep::Skipped && r.commands@.len() == 0 && final(store)@ == old(
                store,
            )@,
            outcome is Some && old(self).discard_pending ==> r.step == SensorStep::Discarded(
                measurement_of(outcome->Some_0),
            ) && r.commands@.len() == 0 && final(store)@ == old(store)@,
            outcome is Some && !old(self).discard_pending ==> {
                let m = measurement_of(outcome->Some_0);
                let kt = (temp_series(sensor.name@), ts);
                let kh = (humidity_series(sensor.name@), ts);
                &&& r.commands@ == commands_for(sensor.actions@, m.temperature as int)
                &&& if old(store)@.contains_key(kt) || old(store)@.contains_key(kh) {
                    r.step == SensorStep::Recorded(m, Err::<(), StoreError>(StoreError::DuplicateKey)) && final(store)@ == old(
                        store,
                    )@
                } else {
                    r.step == SensorStep::Recorded(m, Ok::<(), StoreError>(())) && final(store)@ == old(store)@.insert(
                        kt,
                        m.temperature,
                    ).insert(kh, m.humidity)
                }
            },
    {
        match outcome {
            None => SensorReport { step: SensorStep::Skipped, commands: Vec::new() },
            Some(raw) => {
                let m = measure(raw);
                self.read_this_cycle = true;
                if self.discard_pending {
                    SensorReport { step: SensorStep::Discarded(m), commands: Vec::new() }
                } else {
                    let res = record_reading(store, sensor.name.as_str(), m, ts);
                    let commands = evaluate_rules(&sensor.actions, m.temperature);
                    SensorReport { step: SensorStep::Recorded(m, res), commands }
                }
            },
        }
    }

    /// Ends a cycle over all sensors: once a cycle with a completed read has ended,
    /// reads are recorded from then on.
    pub fn end_cycle(&mut self)
        ensures
            *final(self) == after_cycle(*old(self)),
    {
        self.discard_pending = self.discard_pending && !self.read_this_cycle;
        self.read_this_cycle = false;
    }
}

/// Until a read has completed, the poller drops reads: the first completed read
/// after process start, of whichever sensor, is never recorded.
pub proof fn lemma_first_read_discarded(events: Seq<PollEvent>)
    requires
        forall|i: int| 0 <= i < events.len() ==> !(#[trigger] events[i] matches PollEvent::Read(true)),
    ensures
        run_events(initial_poller(), events).discard_pending,
        !run_events(initial_poller(), events).read_this_cycle,
    decreases events.len(),
{
    if events.len() > 0 {
        lemma_first_read_discarded(events.drop_last());
        assert(!(events[events.len() - 1] matches PollEvent::Read(true)));
    }
}

/// Once a read has completed and its cycle has ended, every later completed read is
/// recorded.
pub proof fn lemma_reads_recorded_after_first_cycle(events: Seq<PollEvent>, i: int, j: int)
    requires
        0 <= i < j < events.len(),
        events[i] matches PollEvent::Read(true),
        events[j] matches PollEvent::EndCycle,
    ensures
        !run_events(initial_poller(), events).discard_pending,
    decreases events.len(),
{
    if j < events.len() - 1 {
        lemma_reads_recorded_after_first_cycle(events.drop_last(), i, j);
    } else {
        lemma_read_seen(events.drop_last(), i);
    }
}

proof fn lemma_read_seen(events: Seq<PollEvent>, i: int)
    requires
        0 <= i < events.len(),
        events[i] matches PollEvent::Read(true),
    ensures
        ({
            let p = run_events(initial_poller(), events);
            !p.discard_pending || p.read_this_cycle
        }),
    decreases events.len(),
{
    if i < events.len() - 1 {
        lemma_read_seen(events.drop_last(), i);
    }
}

} // verus!
