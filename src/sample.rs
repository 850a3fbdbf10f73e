use vstd::prelude::*;

use crate::poller::{humidity_series, humidity_series_name, temp_series, temp_series_name};
use crate::store::{ReadingStore, StoreError};

verus! {

/// `value + delta` raised to `lo` if below it, then lowered to `hi` if above it.
pub open spec fn walk(value: int, delta: int, lo: int, hi: int) -> int {
    let raised = if value + delta < lo {
        lo
    } else {
        value + delta
    };
    if raised > hi {
        hi
    } else {
        raised
    }
}

/// One step of a bounded random walk: `value` moved by `delta`, raised to `lo` if below
/// it, then lowered to `hi` if above it.
pub fn next_sample(value: i64, delta: i64, lo: i64, hi: i64) -> (r: i64)
    ensures
        r == walk(value as int, delta as int, lo as int, hi as int),
{
    let mut moved = value as i128 + delta as i128;
    if moved < lo as i128 {
        moved = lo as i128;
    }
    if moved > hi as i128 {
        moved = hi as i128;
    }
    moved as i64
}

/// Relies on `rand::thread_rng` and `Rng::gen_range`: a value in `[low, high)`; it
/// panics when `low >= high`.
#[verifier::external_body]
fn random_in(low: i64, high: i64) -> (r: i64)
    requires
        low < high,
    ensures
        low <= r < high,
{
    rand::Rng::gen_range(&mut rand::thread_rng(), low, high)
}

/// A random step of the walk: `value` moved by less than `step` either way, kept within
/// `[lo, hi]`.
pub fn random_walk(value: i64, step: i64, lo: i64, hi: i64) -> (r: i64)
    requires
        lo <= hi,
        0 < step,
    ensures
        exists|d: int| -step <= d < step && r == walk(value as int, d, lo as int, hi as int),
        lo <= r <= hi,
        lo <= value <= hi ==> value - step <= r <= value + step,
{
    let delta = random_in(-step, step);
    next_sample(value, delta, lo, hi)
}

/// How many readings of each series the sample data holds.
pub const SAMPLE_COUNT: usize = 1000;

/// Seconds between two sample readings.
pub const SAMPLE_SPACING: i64 = 300;

pub open spec fn sample_sensor() -> Seq<char> {
    seq!['i', 'n', 's', 'i', 'd', 'e']
}

/// The timestamp of the `i`-th sample reading, counted back from `now`.
pub open spec fn sample_ts(now: int, i: int) -> i64 {
    (now - SAMPLE_SPACING * i) as i64
}

pub open spec fn sample_temp_key(now: int, i: int) -> (Seq<char>, i64) {
    (temp_series(sample_sensor()), sample_ts(now, i))
}

pub open spec fn sample_humidity_key(now: int, i: int) -> (Seq<char>, i64) {
    (humidity_series(sample_sensor()), sample_ts(now, i))
}

/// `k` is the key of one of the first `count` sample readings.
pub open spec fn is_sample_key(now: int, count: int, k: (Seq<char>, i64)) -> bool {
    exists|i: int| 0 <= i < count && (k == #[trigger] sample_temp_key(now, i) || k == sample_humidity_key(now, i))
}

/// No sample key is stored yet.
pub open spec fn sample_keys_free(m: Map<(Seq<char>, i64), i64>, now: int) -> bool {
    forall|i: int|
        0 <= i < SAMPLE_COUNT ==> !m.contains_key(#[trigger] sample_temp_key(now, i)) && !m.contains_key(
            sample_humidity_key(now, i),
        )
}

proof fn lemma_sample_keys_differ(now: int, i: int, j: int)
    requires
        i64::MIN + SAMPLE_SPACING * SAMPLE_COUNT <= now <= i64::MAX,
        0 <= i < SAMPLE_COUNT,
        0 <= j < SAMPLE_COUNT,
    ensures
        i != j ==> sample_ts(now, i) != sample_ts(now, j),
        sample_temp_key(now, i) != sample_humidity_key(now, j),
{
    assert(temp_series(sample_sensor())[0] != humidity_series(sample_sensor())[0]);
}

proof fn lemma_sample_key_step(now: int, i: int, k: (Seq<char>, i64))
    requires
        0 <= i,
    ensures
        is_sample_key(now, i + 1, k) == (is_sample_key(now, i, k) || k == sample_temp_key(now, i) || k
            == sample_humidity_key(now, i)),
{
    if is_sample_key(now, i + 1, k) {
        let j = choose|j: int| 0 <= j < i + 1 && (k == #[trigger] sample_temp_key(now, j) || k == sample_humidity_key(now, j));
        if j < i {
            assert(0 <= j < i && (k == sample_temp_key(now, j) || k == sample_humidity_key(now, j)));
        }
    }
    if is_sample_key(now, i, k) {
        let j = choose|j: int| 0 <= j < i && (k == #[trigger] sample_temp_key(now, j) || k == sample_humidity_key(now, j));
        assert(0 <= j < i + 1 && (k == sample_temp_key(now, j) || k == sample_humidity_key(now, j)));
    }
    if k == sample_temp_key(now, i) || k == sample_humidity_key(now, i) {
        assert(0 <= i < i + 1 && (k == sample_temp_key(now, i) || k == sample_humidity_key(now, i)));
    }
}

/// How far one sample temperature may move from the last, in hundredths of a degree.
pub const TEMP_STEP: i64 = 200;

/// How far one sample humidity may move from the last, in hundredths of a percent.
pub const HUMIDITY_STEP: i64 = 400;

pub open spec fn within_step(a: i64, b: i64, step: i64) -> bool {
    b - step <= a <= b + step
}

/// The fill stopped at sample `j`: the samples before it were free and are stored,
/// sample `j` had a key already stored, its temperature is stored if it was free, and
/// every reading stored before keeps its value.
pub open spec fn sample_failure_at(
    before: Map<(Seq<char>, i64), i64>,
    after: Map<(Seq<char>, i64), i64>,
    now: int,
    j: int,
) -> bool {
    &&& forall|i: int|
        0 <= i < j ==> !before.contains_key(#[trigger] sample_temp_key(now, i)) && !before.contains_key(
            sample_humidity_key(now, i),
        )
    &&& before.contains_key(sample_temp_key(now, j)) || before.contains_key(sample_humidity_key(now, j))
    &&& forall|k: (Seq<char>, i64)|
        #[trigger] after.contains_key(k) <==> before.contains_key(k) || is_sample_key(now, j, k) || k
            == sample_temp_key(now, j)
    &&& forall|k: (Seq<char>, i64)| #[trigger] before.contains_key(k) ==> after[k] == before[k]
}

/// The state after `i` samples: they were free before and are now stored within
/// their ranges, each within a step of the last, the last being `t1` and `t2`; nothing
/// else was added and nothing stored before changed.
pub open spec fn filled(
    before: Map<(Seq<char>, i64), i64>,
    m: Map<(Seq<char>, i64), i64>,
    now: int,
    i: int,
    t1: i64,
    t2: i64,
) -> bool {
    &&& forall|j: int|
        0 <= j < i ==> !before.contains_key(#[trigger] sample_temp_key(now, j)) && !before.contains_key(
            sample_humidity_key(now, j),
        )
    &&& forall|k: (Seq<char>, i64)| #[trigger] m.contains_key(k) <==> before.contains_key(k) || is_sample_key(now, i, k)
    &&& forall|k: (Seq<char>, i64)| #[trigger] before.contains_key(k) ==> m[k] == before[k]
    &&& forall|j: int|
        0 <= j < i ==> 3000 <= #[trigger] m[sample_temp_key(now, j)] <= 7000 && 1000 <= m[sample_humidity_key(
            now,
            j,
        )] <= 9000
    &&& i > 0 ==> t1 == m[sample_temp_key(now, i - 1)] && t2 == m[sample_humidity_key(now, i - 1)]
    &&& forall|j: int|
        1 <= j < i ==> within_step(m[#[trigger] sample_temp_key(now, j)], m[sample_temp_key(now, j - 1)], TEMP_STEP)
            && within_step(m[sample_humidity_key(now, j)], m[sample_humidity_key(now, j - 1)], HUMIDITY_STEP)
}

proof fn lemma_fill_step(
    before: Map<(Seq<char>, i64), i64>,
    m: Map<(Seq<char>, i64), i64>,
    now: int,
    i: int,
    t1: i64,
    t2: i64,
    n1: i64,
    n2: i64,
)
    requires
        i64::MIN + SAMPLE_SPACING * SAMPLE_COUNT <= now <= i64::MAX,
        0 <= i < SAMPLE_COUNT,
        filled(before, m, now, i, t1, t2),
        !m.contains_key(sample_temp_key(now, i)),
        !m.contains_key(sample_humidity_key(now, i)),
        3000 <= n1 <= 7000,
        1000 <= n2 <= 9000,
        i > 0 ==> within_step(n1, t1, TEMP_STEP) && within_step(n2, t2, HUMIDITY_STEP),
    ensures
        filled(
            before,
            m.insert(sample_temp_key(now, i), n1).insert(sample_humidity_key(now, i), n2),
            now,
            i + 1,
            n1,
            n2,
        ),
{
    let kt = sample_temp_key(now, i);
    let kh = sample_humidity_key(now, i);
    let m2 = m.insert(kt, n1).insert(kh, n2);
    lemma_sample_keys_differ(now, i, i);
    assert forall|j: int| 0 <= j < i implies #[trigger] sample_temp_key(now, j) != kt && sample_humidity_key(now, j)
        != kt && sample_temp_key(now, j) != kh && sample_humidity_key(now, j) != kh by {
        lemma_sample_keys_differ(now, i, j);
        lemma_sample_keys_differ(now, j, i);
    }
    assert(!before.contains_key(kt) && !before.contains_key(kh));
    assert forall|k: (Seq<char>, i64)| #[trigger] m2.contains_key(k) <==> before.contains_key(k) || is_sample_key(
        now,
        i + 1,
        k,
    ) by {
        lemma_sample_key_step(now, i, k);
        assert(m.contains_key(k) <==> before.contains_key(k) || is_sample_key(now, i, k));
    }
    assert forall|k: (Seq<char>, i64)| #[trigger] before.contains_key(k) implies m2[k] == before[k] by {
        assert(m.contains_key(k));
    }
    assert forall|j: int| 0 <= j < i + 1 implies 3000 <= #[trigger] m2[sample_temp_key(now, j)] <= 7000 && 1000
        <= m2[sample_humidity_key(now, j)] <= 9000 by {
        if j < i {
            assert(sample_temp_key(now, j) != kt && sample_humidity_key(now, j) != kt);
            assert(sample_temp_key(now, j) != kh && sample_humidity_key(now, j) != kh);
        }
    }
    assert forall|j: int| 1 <= j < i + 1 implies within_step(
        m2[#[trigger] sample_temp_key(now, j)],
        m2[sample_temp_key(now, j - 1)],
        TEMP_STEP,
    ) && within_step(m2[sample_humidity_key(now, j)], m2[sample_humidity_key(now, j - 1)], HUMIDITY_STEP) by {
        assert(sample_temp_key(now, j - 1) != kt && sample_humidity_key(now, j - 1) != kt);
        assert(sample_temp_key(now, j - 1) != kh && sample_humidity_key(now, j - 1) != kh);
        if j < i {
            assert(sample_temp_key(now, j) != kt && sample_humidity_key(now, j) != kt);
            assert(sample_temp_key(now, j) != kh && sample_humidity_key(now, j) != kh);
        }
    }
}

/// Fills the store with two random walks of sample readings of sensor `inside`, one
/// every `SAMPLE_SPACING` seconds back from `now`: temperatures within 30 to 70 degrees,
/// humidities within 10 to 90 percent (both in hundredths). It succeeds exactly when
/// none of those keys is stored yet; then it adds them and changes nothing else.
pub fn fill_sample_data(store: &mut ReadingStore, now: i64) -> (r: Result<(), StoreError>)
    requires
        old(store).wf(),
        now >= i64::MIN + SAMPLE_SPACING * SAMPLE_COUNT,
    ensures
        final(store).wf(),
        r is Ok <==> sample_keys_free(old(store)@, now as int),
        r is Ok ==> forall|k: (Seq<char>, i64)|
            #[trigger] final(store)@.contains_key(k) <==> old(store)@.contains_key(k) || is_sample_key(
                now as int,
                SAMPLE_COUNT as int,
                k,
            ),
        r is Ok ==> forall|k: (Seq<char>, i64)| #[trigger] old(store)@.contains_key(k) ==> final(store)@[k] == old(
            store,
        )@[k],
        r is Ok ==> forall|i: int|
            0 <= i < SAMPLE_COUNT ==> 3000 <= #[trigger] final(store)@[sample_temp_key(now as int, i)] <= 7000
                && 1000 <= final(store)@[sample_humidity_key(now as int, i)] <= 9000,
        r is Ok ==> forall|i: int|
            1 <= i < SAMPLE_COUNT ==> within_step(
                final(store)@[#[trigger] sample_temp_key(now as int, i)],
                final(store)@[sample_temp_key(now as int, i - 1)],
                TEMP_STEP,
            ) && within_step(
                final(store)@[sample_humidity_key(now as int, i)],
                final(store)@[sample_humidity_key(now as int, i - 1)],
                HUMIDITY_STEP,
            ),
        r is Err ==> r == Err::<(), StoreError>(StoreError::DuplicateKey) && exists|j: int|
            0 <= j < SAMPLE_COUNT && sample_failure_at(old(store)@, final(store)@, now as int, j),
{
    let t_name = temp_series_name("inside");
    let h_name = humidity_series_name("inside");
    proof {
        reveal_strlit("inside");
        assert(t_name@ == temp_series(sample_sensor()));
        assert(h_name@ == humidity_series(sample_sensor()));
    }
    let ghost old_m = store@;
    let mut t1 = random_in(3000, 7000);
    let mut t2 = random_in(1000, 9000);
    let mut i: usize = 0;
    while i < SAMPLE_COUNT
        invariant
            store.wf(),
            old_m == old(store)@,
            t_name@ == temp_series(sample_sensor()),
            h_name@ == humidity_series(sample_sensor()),
            now >= i64::MIN + SAMPLE_SPACING * SAMPLE_COUNT,
            0 <= i <= SAMPLE_COUNT,
            3000 <= t1 <= 7000,
            1000 <= t2 <= 9000,
            filled(old_m, store@, now as int, i as int, t1, t2),
        decreases SAMPLE_COUNT - i,
    {
        let ghost p1 = t1;
        let ghost p2 = t2;
        t1 = random_walk(t1, TEMP_STEP, 3000, 7000);
        t2 = random_walk(t2, HUMIDITY_STEP, 1000, 9000);
        let ts = now - SAMPLE_SPACING * i as i64;
        let ghost cur = store@;
        let ghost kt = sample_temp_key(now as int, i as int);
        let ghost kh = sample_humidity_key(now as int, i as int);
        proof {
            assert(kt == (t_name@, ts));
            assert(kh == (h_name@, ts));
            lemma_sample_keys_differ(now as int, i as int, i as int);
            assert forall|j: int| 0 <= j < i implies #[trigger] sample_temp_key(now as int, j) != kt
                && sample_humidity_key(now as int, j) != kt && sample_temp_key(now as int, j) != kh
                && sample_humidity_key(now as int, j) != kh by {
                lemma_sample_keys_differ(now as int, i as int, j);
                lemma_sample_keys_differ(now as int, j, i as int);
            }
            assert(!is_sample_key(now as int, i as int, kt));
            assert(!is_sample_key(now as int, i as int, kh));
        }
        match store.append(t_name.as_str(), ts, t1) {
            Ok(()) => {},
            Err(e) => {
                proof {
                    assert(old_m.contains_key(kt));
                    assert(!sample_keys_free(old_m, now as int));
                    assert forall|k: (Seq<char>, i64)|
                        #[trigger] store@.contains_key(k) <==> old_m.contains_key(k) || is_sample_key(
                            now as int,
                            i as int,
                            k,
                        ) || k == kt by {
                        if k == kt {
                            assert(cur.contains_key(k));
                        }
                    }
                    assert(sample_failure_at(old_m, store@, now as int, i as int));
                }
                return Err(e);
            },
        }
        let ghost mid = store@;
        proof {
            assert(!cur.contains_key(kt));
        }
        match store.append(h_name.as_str(), ts, t2) {
            Ok(()) => {},
            Err(e) => {
                proof {
                    assert(mid.contains_key(kh));
                    assert(cur.contains_key(kh));
                    assert(old_m.contains_key(kh));
                    assert(!sample_keys_free(old_m, now as int));
                    assert forall|k: (Seq<char>, i64)|
                        #[trigger] store@.contains_key(k) <==> old_m.contains_key(k) || is_sample_key(
                            now as int,
                            i as int,
                            k,
                        ) || k == kt by {
                        assert(mid.contains_key(k) <==> cur.contains_key(k) || k == kt);
                        assert(cur.contains_key(k) <==> old_m.contains_key(k) || is_sample_key(now as int, i as int, k));
                    }
                    assert forall|k: (Seq<char>, i64)| #[trigger] old_m.contains_key(k) implies store@[k] == old_m[k] by {
                        assert(cur.contains_key(k));
                    }
                    assert(sample_failure_at(old_m, store@, now as int, i as int));
                }
                return Err(e);
            },
        }
        proof {
            assert(!cur.contains_key(kh));
            lemma_fill_step(old_m, cur, now as int, i as int, p1, p2, t1, t2);
            assert(store@ == cur.insert(kt, t1).insert(kh, t2));
        }
        i = i + 1;
    }
    proof {
        assert(sample_keys_free(old_m, now as int));
    }
    Ok(())
}

} // verus!
