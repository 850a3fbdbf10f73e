use vstd::prelude::*;

use crate::query::{names_view, ChartRequest, RenderError};
use crate::store::ReadingStore;

verus! {

/// How far a flat value axis is widened on each side: ten units, in hundredths.
pub const FLAT_MARGIN: i64 = 1000;

/// How many colors the palette holds before it starts over.
pub const PALETTE_LEN: usize = 2;

/// A line color.
#[derive(Debug, PartialEq, Eq, Structural, Clone, Copy)]
pub struct Rgb {
    pub r: u8,
    pub g: u8,
    pub b: u8,
}

/// The color of the series at `index` in a request.
pub open spec fn palette(index: int) -> Rgb {
    if index % 2 == 0 {
        Rgb { r: 114, g: 165, b: 83 }
    } else {
        Rgb { r: 202, g: 85, b: 114 }
    }
}

/// The color of the series at `index` in a request; the palette wraps.
pub fn series_color(index: usize) -> (r: Rgb)
    ensures
        r == palette(index as int),
{
    if index % PALETTE_LEN == 0 {
        Rgb { r: 114, g: 165, b: 83 }
    } else {
        Rgb { r: 202, g: 85, b: 114 }
    }
}

/// One line of a chart.
pub struct ChartSeries {
    pub name: String,
    pub points: Vec<(i64, i64)>,
    pub color: Rgb,
}

/// Everything a chart is drawn from: the title, one time axis and one value axis
/// shared by all series, and the series in request order.
pub struct ChartPlan {
    pub title: String,
    pub ts_min: i64,
    pub ts_max: i64,
    pub val_min: i64,
    pub val_max: i64,
    pub series: Vec<ChartSeries>,
}

/// Series `k` of the first `count` names has a reading at `t`.
pub open spec fn in_request(m: Map<(Seq<char>, i64), i64>, names: Seq<Seq<char>>, count: int, k: int, t: i64) -> bool {
    0 <= k < count && k < names.len() && m.contains_key((names[k], t))
}

/// `t` is the earliest timestamp of the first `count` series.
pub open spec fn is_min_ts(m: Map<(Seq<char>, i64), i64>, names: Seq<Seq<char>>, count: int, t: i64) -> bool {
    &&& exists|k: int| #[trigger] in_request(m, names, count, k, t)
    &&& forall|k: int, u: i64| #[trigger] in_request(m, names, count, k, u) ==> t <= u
}

/// `t` is the latest timestamp of the first `count` series.
pub open spec fn is_max_ts(m: Map<(Seq<char>, i64), i64>, names: Seq<Seq<char>>, count: int, t: i64) -> bool {
    &&& exists|k: int| #[trigger] in_request(m, names, count, k, t)
    &&& forall|k: int, u: i64| #[trigger] in_request(m, names, count, k, u) ==> u <= t
}

/// `v` is the least value of the first `count` series.
pub open spec fn is_min_value(m: Map<(Seq<char>, i64), i64>, names: Seq<Seq<char>>, count: int, v: i64) -> bool {
    &&& exists|k: int, t: i64| #[trigger] in_request(m, names, count, k, t) && m[(names[k], t)] == v
    &&& forall|k: int, t: i64| #[trigger] in_request(m, names, count, k, t) ==> v <= m[(names[k], t)]
}

/// `v` is the greatest value of the first `count` series.
pub open spec fn is_max_value(m: Map<(Seq<char>, i64), i64>, names: Seq<Seq<char>>, count: int, v: i64) -> bool {
    &&& exists|k: int, t: i64| #[trigger] in_request(m, names, count, k, t) && m[(names[k], t)] == v
    &&& forall|k: int, t: i64| #[trigger] in_request(m, names, count, k, t) ==> m[(names[k], t)] <= v
}

/// The store holds no reading of series `name`.
pub open spec fn series_empty(m: Map<(Seq<char>, i64), i64>, name: Seq<char>) -> bool {
    forall|t: i64| !#[trigger] m.contains_key((name, t))
}

/// There is no line to draw: no series was named, one has no readings, or all
/// readings share one timestamp.
pub open spec fn no_data(m: Map<(Seq<char>, i64), i64>, names: Seq<Seq<char>>) -> bool {
    ||| names.len() == 0
    ||| exists|k: int| 0 <= k < names.len() && #[trigger] series_empty(m, names[k])
    ||| forall|k1: int, t1: i64, k2: int, t2: i64|
        #[trigger] in_request(m, names, names.len() as int, k1, t1) && #[trigger] in_request(
            m,
            names,
            names.len() as int,
            k2,
            t2,
        ) ==> t1 == t2
}

pub open spec fn widen_down(v: int) -> int {
    if v - FLAT_MARGIN < i64::MIN {
        i64::MIN as int
    } else {
        v - FLAT_MARGIN
    }
}

pub open spec fn widen_up(v: int) -> int {
    if v + FLAT_MARGIN > i64::MAX {
        i64::MAX as int
    } else {
        v + FLAT_MARGIN
    }
}

/// The value axis for data spanning `[lo, hi]`: widened by the margin on each side
/// (within the range of `i64`) when flat, then replaced by each bound the request gives.
pub open spec fn value_axis(lo: int, hi: int, x_min: Option<i64>, x_max: Option<i64>) -> (int, int) {
    let low = if lo == hi {
        widen_down(lo)
    } else {
        lo
    };
    let high = if lo == hi {
        widen_up(hi)
    } else {
        hi
    };
    (
        match x_min {
            Some(v) => v as int,
            None => low,
        },
        match x_max {
            Some(v) => v as int,
            None => high,
        },
    )
}

/// The least and greatest value among `pts`.
fn value_range(pts: &Vec<(i64, i64)>) -> (r: (i64, i64))
    requires
        pts@.len() > 0,
    ensures
        exists|j: int| 0 <= j < pts@.len() && pts@[j].1 == r.0,
        exists|j: int| 0 <= j < pts@.len() && pts@[j].1 == r.1,
        forall|j: int| 0 <= j < pts@.len() ==> r.0 <= #[trigger] pts@[j].1 <= r.1,
{
    let mut lo = pts[0].1;
    let mut hi = pts[0].1;
    let mut i: usize = 1;
    while i < pts.len()
        invariant
            1 <= i <= pts@.len(),
            exists|j: int| 0 <= j < i && pts@[j].1 == lo,
            exists|j: int| 0 <= j < i && pts@[j].1 == hi,
            forall|j: int| 0 <= j < i ==> lo <= #[trigger] pts@[j].1 <= hi,
        decreases pts@.len() - i,
    {
        if pts[i].1 < lo {
            lo = pts[i].1;
        }
        if pts[i].1 > hi {
            hi = pts[i].1;
        }
        i = i + 1;
    }
    (lo, hi)
}

/// What a listing of one series tells of the store: its first and last timestamps
/// bound the series', and its values are the series' values.
proof fn lemma_listing(store: &ReadingStore, name: Seq<char>, pts: Seq<(i64, i64)>)
    requires
        store.lists_series(name, pts),
        pts.len() > 0,
    ensures
        store@.contains_key((name, pts[0].0)),
        store@.contains_key((name, pts.last().0)),
        forall|j: int| 0 <= j < pts.len() ==> store@.contains_key((name, #[trigger] pts[j].0)) && store@[(name, pts[j].0)] == pts[j].1,
        forall|u: i64| #[trigger] store@.contains_key((name, u)) ==> pts[0].0 <= u <= pts.last().0 && exists|j: int|
            0 <= j < pts.len() && pts[j] == (u, store@[(name, u)]),
{
    assert forall|j: int| 0 <= j < pts.len() implies store@.contains_key((name, #[trigger] pts[j].0)) && store@[(name, pts[j].0)] == pts[j].1 by {
        assert(pts.contains((pts[j].0, pts[j].1)));
    }
    assert forall|u: i64| #[trigger] store@.contains_key((name, u)) implies pts[0].0 <= u <= pts.last().0 && exists|j: int|
        0 <= j < pts.len() && pts[j] == (u, store@[(name, u)]) by {
        assert(pts.contains((u, store@[(name, u)])));
        let j = choose|j: int| 0 <= j < pts.len() && pts[j] == (u, store@[(name, u)]);
        if j > 0 {
            assert(pts[0].0 < pts[j].0);
        }
        if j < pts.len() - 1 {
            assert(pts[j].0 < pts[pts.len() - 1].0);
        }
    }
}

/// Gathers the requested series from the store and lays out the axes they share:
/// the time axis spans every series' readings, the value axis every value, widened
/// when flat and overridden by the request's bounds.
pub fn plan_chart(store: &ReadingStore, req: &ChartRequest) -> (r: Result<ChartPlan, RenderError>)
    requires
        store.wf(),
    ensures
        ({
            let m = store@;
            let names = names_view(req.series_names@);
            let n = names.len() as int;
            &&& no_data(m, names) <==> (r is Err && r->Err_0 is NoData)
            &&& !no_data(m, names) ==> exists|lo: i64, hi: i64|
                is_min_value(m, names, n, lo) && is_max_value(m, names, n, hi)
            &&& !no_data(m, names) ==> forall|lo: i64, hi: i64|
                is_min_value(m, names, n, lo) && is_max_value(m, names, n, hi) ==> {
                    let axis = value_axis(lo as int, hi as int, req.x_min, req.x_max);
                    if axis.0 >= axis.1 {
                        r is Err && r->Err_0 is InvertedRange
                    } else {
                        r is Ok && r->Ok_0.val_min == axis.0 && r->Ok_0.val_max == axis.1
                    }
                }
            &&& r is Ok ==> {
                let plan = r->Ok_0;
                &&& plan.title@ == req.title@
                &&& is_min_ts(m, names, n, plan.ts_min)
                &&& is_max_ts(m, names, n, plan.ts_max)
                &&& plan.series@.len() == n
                &&& forall|i: int|
                    0 <= i < n ==> {
                        &&& (#[trigger] plan.series@[i]).name@ == names[i]
                        &&& store.lists_series(names[i], plan.series@[i].points@)
                        &&& plan.series@[i].color == palette(i)
                    }
            }
        }),
{
    let ghost m = store@;
    let ghost names = names_view(req.series_names@);
    let n = req.series_names.len();
    let mut series: Vec<ChartSeries> = Vec::new();
    let mut t_lo: i64 = 0;
    let mut t_hi: i64 = 0;
    let mut v_lo: i64 = 0;
    let mut v_hi: i64 = 0;
    let mut i: usize = 0;
    while i < n
        invariant
            store.wf(),
            m == store@,
            names == names_view(req.series_names@),
            n == names.len(),
            0 <= i <= n,
            series@.len() == i,
            forall|j: int|
                0 <= j < i ==> {
                    &&& (#[trigger] series@[j]).name@ == names[j]
                    &&& store.lists_series(names[j], series@[j].points@)
                    &&& series@[j].color == palette(j)
                    &&& series@[j].points@.len() > 0
                },
            i > 0 ==> is_min_ts(m, names, i as int, t_lo),
            i > 0 ==> is_max_ts(m, names, i as int, t_hi),
            i > 0 ==> is_min_value(m, names, i as int, v_lo),
            i > 0 ==> is_max_value(m, names, i as int, v_hi),
        decreases n - i,
    {
        let name = &req.series_names[i];
        let pts = store.query_range(name.as_str());
        proof {
            assert(names[i as int] == name@);
        }
        if pts.len() == 0 {
            proof {
                assert(series_empty(m, names[i as int])) by {
                  assert forall|t: i64| !#[trigger] m.contains_key((names[i as int], t)) by {
                    if m.contains_key((names[i as int], t)) {
                        assert(pts@.contains((t, m[(names[i as int], t)])));
                    }
                  }
                }
            }
            return Err(RenderError::NoData);
        }
        let (lo, hi) = value_range(&pts);
        let first = pts[0].0;
        let last = pts[pts.len() - 1].0;
        proof {
            lemma_listing(store, name@, pts@);
        }
        let ghost old_t_lo = t_lo;
        let ghost old_t_hi = t_hi;
        let ghost old_v_lo = v_lo;
        let ghost old_v_hi = v_hi;
        if i == 0 || first < t_lo {
            t_lo = first;
        }
        if i == 0 || last > t_hi {
            t_hi = last;
        }
        if i == 0 || lo < v_lo {
            v_lo = lo;
        }
        if i == 0 || hi > v_hi {
            v_hi = hi;
        }
        proof {
            let c = i as int + 1;
            assert forall|k: int, u: i64| #[trigger] in_request(m, names, c, k, u) implies t_lo <= u <= t_hi
                && v_lo <= m[(names[k], u)] <= v_hi by {
                if k < i {
                    assert(in_request(m, names, i as int, k, u));
                } else {
                    let j = choose|j: int| 0 <= j < pts@.len() && pts@[j] == (u, m[(names[k], u)]);
                    assert(lo <= pts@[j].1 <= hi);
                }
            }
            if t_lo == first {
                assert(in_request(m, names, c, i as int, first));
            } else {
                let k = choose|k: int| #[trigger] in_request(m, names, i as int, k, old_t_lo);
                assert(in_request(m, names, c, k, t_lo));
            }
            if t_hi == last {
                assert(in_request(m, names, c, i as int, last));
            } else {
                let k = choose|k: int| #[trigger] in_request(m, names, i as int, k, old_t_hi);
                assert(in_request(m, names, c, k, t_hi));
            }
            if v_lo == lo {
                let j = choose|j: int| 0 <= j < pts@.len() && pts@[j].1 == lo;
                assert(in_request(m, names, c, i as int, pts@[j].0) && m[(names[i as int], pts@[j].0)] == v_lo);
            } else {
                let (k, t) = choose|k: int, t: i64| #[trigger] in_request(m, names, i as int, k, t) && m[(names[k], t)] == old_v_lo;
                assert(in_request(m, names, c, k, t) && m[(names[k], t)] == v_lo);
            }
            if v_hi == hi {
                let j = choose|j: int| 0 <= j < pts@.len() && pts@[j].1 == hi;
                assert(in_request(m, names, c, i as int, pts@[j].0) && m[(names[i as int], pts@[j].0)] == v_hi);
            } else {
                let (k, t) = choose|k: int, t: i64| #[trigger] in_request(m, names, i as int, k, t) && m[(names[k], t)] == old_v_hi;
                assert(in_request(m, names, c, k, t) && m[(names[k], t)] == v_hi);
            }
        }
        series.push(ChartSeries { name: name.clone(), points: pts, color: series_color(i) });
        i = i + 1;
    }
    let ghost nn = n as int;
    proof {
        // Every series has a reading.
        assert forall|k: int| 0 <= k < nn implies !#[trigger] series_empty(m, names[k]) by {
            lemma_listing(store, names[k], series@[k].points@);
            assert(m.contains_key((names[k], series@[k].points@[0].0)));
        }
    }
    if n == 0 || t_lo == t_hi {
        proof {
            if n > 0 {
                assert forall|k1: int, t1: i64, k2: int, t2: i64|
                    #[trigger] in_request(m, names, nn, k1, t1) && #[trigger] in_request(m, names, nn, k2, t2)
                    implies t1 == t2 by {
                }
            }
        }
        return Err(RenderError::NoData);
    }
    proof {
        let k1 = choose|k: int| #[trigger] in_request(m, names, nn, k, t_lo);
        let k2 = choose|k: int| #[trigger] in_request(m, names, nn, k, t_hi);
        assert(in_request(m, names, nn, k1, t_lo) && in_request(m, names, nn, k2, t_hi) && t_lo != t_hi);
        assert(!(forall|a: int, ta: i64, b: int, tb: i64|
            #[trigger] in_request(m, names, nn, a, ta) && #[trigger] in_request(m, names, nn, b, tb) ==> ta == tb));
        assert(!no_data(m, names));
    }
    let flat = v_lo == v_hi;
    let low = match req.x_min {
        Some(v) => v,
        None => if flat {
            if v_lo < i64::MIN + FLAT_MARGIN {
                i64::MIN
            } else {
                v_lo - FLAT_MARGIN
            }
        } else {
            v_lo
        },
    };
    let high = match req.x_max {
        Some(v) => v,
        None => if flat {
            if v_hi > i64::MAX - FLAT_MARGIN {
                i64::MAX
            } else {
                v_hi + FLAT_MARGIN
            }
        } else {
            v_hi
        },
    };
    proof {
        assert forall|lo: i64, hi: i64|
            is_min_value(m, names, nn, lo) && is_max_value(m, names, nn, hi) implies lo == v_lo && hi == v_hi by {
            let (k, t) = choose|k: int, t: i64| #[trigger] in_request(m, names, nn, k, t) && m[(names[k], t)] == lo;
            let (k2, t2) = choose|k: int, t: i64| #[trigger] in_request(m, names, nn, k, t) && m[(names[k], t)] == v_lo;
            assert(v_lo <= m[(names[k], t)]);
            assert(lo <= m[(names[k2], t2)]);
            let (k3, t3) = choose|k: int, t: i64| #[trigger] in_request(m, names, nn, k, t) && m[(names[k], t)] == hi;
            let (k4, t4) = choose|k: int, t: i64| #[trigger] in_request(m, names, nn, k, t) && m[(names[k], t)] == v_hi;
            assert(m[(names[k3], t3)] <= v_hi);
            assert(m[(names[k4], t4)] <= hi);
        }
    }
    proof {
        assert(is_min_value(m, names, nn, v_lo) && is_max_value(m, names, nn, v_hi));
    }
    if low >= high {
        return Err(RenderError::InvertedRange);
    }
    Ok(ChartPlan { title: req.title.clone(), ts_min: t_lo, ts_max: t_hi, val_min: low, val_max: high, series })
}

/// The time-axis label of `ts` seconds since the epoch: abbreviated weekday, hour and
/// minute in UTC (`Sun 14:05`).
pub uninterp spec fn weekday_time_label(ts: i64) -> Seq<char>;

/// The first second of year 1 and the last of year 9999, in seconds since the epoch.
pub const FIRST_LABELLED_TS: i64 = -62135596800;
pub const LAST_LABELLED_TS: i64 = 253402300799;

/// Relies on `chrono::DateTime::from_timestamp` (`Some` for every time within chrono's
/// date range, which holds the years 1 to 9999) and `format("%a %R")`: a three-letter
/// weekday, a space and a zero-padded `HH:MM`.
#[verifier::external_body]
fn format_time_label(ts: i64) -> (r: Option<String>)
    ensures
        FIRST_LABELLED_TS <= ts <= LAST_LABELLED_TS ==> r is Some,
        r matches Some(s) ==> s@ == weekday_time_label(ts) && s@.len() == 9,
{
    match chrono::DateTime::from_timestamp(ts, 0) {
        Some(d) => Some(d.format("%a %R").to_string()),
        None => None,
    }
}

/// The label of `ts` on a chart's time axis; empty for a time that has no date.
pub fn time_axis_label(ts: i64) -> (r: String)
    ensures
        FIRST_LABELLED_TS <= ts <= LAST_LABELLED_TS ==> r@ == weekday_time_label(ts),
        r@ == weekday_time_label(ts) || r@.len() == 0,
{
    match format_time_label(ts) {
        Some(s) => s,
        None => String::new(),
    }
}

/// The readings of series `name` run from `lo` to `hi`, both included.
pub open spec fn spans(m: Map<(Seq<char>, i64), i64>, name: Seq<char>, lo: i64, hi: i64) -> bool {
    &&& m.contains_key((name, lo))
    &&& m.contains_key((name, hi))
    &&& forall|t: i64| #[trigger] m.contains_key((name, t)) ==> lo <= t <= hi
}

/// The time axis spans the union of the series: of two series over `[a0, a1]` and
/// `[b0, b1]`, it runs from the earlier start to the later end.
pub proof fn lemma_time_axis_is_union(
    m: Map<(Seq<char>, i64), i64>,
    names: Seq<Seq<char>>,
    a0: i64,
    a1: i64,
    b0: i64,
    b1: i64,
    lo: i64,
    hi: i64,
)
    requires
        names.len() == 2,
        spans(m, names[0], a0, a1),
        spans(m, names[1], b0, b1),
        is_min_ts(m, names, 2, lo),
        is_max_ts(m, names, 2, hi),
    ensures
        lo == if a0 <= b0 { a0 } else { b0 },
        hi == if a1 >= b1 { a1 } else { b1 },
{
    assert(in_request(m, names, 2, 0, a0) && in_request(m, names, 2, 1, b0));
    assert(in_request(m, names, 2, 0, a1) && in_request(m, names, 2, 1, b1));
    let k = choose|k: int| #[trigger] in_request(m, names, 2, k, lo);
    let k2 = choose|k: int| #[trigger] in_request(m, names, 2, k, hi);
    if k == 0 {
        assert(m.contains_key((names[0], lo)));
    } else {
        assert(m.contains_key((names[1], lo)));
    }
    if k2 == 0 {
        assert(m.contains_key((names[0], hi)));
    } else {
        assert(m.contains_key((names[1], hi)));
    }
}

/// Without bounds in the request, flat data at `v` gets the axis `[v - 10, v + 10]`
/// (in hundredths).
pub proof fn lemma_flat_axis(v: i64)
    requires
        i64::MIN + FLAT_MARGIN <= v <= i64::MAX - FLAT_MARGIN,
    ensures
        value_axis(v as int, v as int, None, None) == (v - FLAT_MARGIN, v + FLAT_MARGIN),
{
}

/// Bounds given in the request are the value axis, whatever the data spans.
pub proof fn lemma_bounds_override(lo: int, hi: int, x_min: i64, x_max: i64)
    ensures
        value_axis(lo, hi, Some(x_min), Some(x_max)) == (x_min as int, x_max as int),
{
}

/// A request that names a series without readings has no data to draw.
pub proof fn lemma_empty_series_no_data(m: Map<(Seq<char>, i64), i64>, names: Seq<Seq<char>>, k: int)
    requires
        0 <= k < names.len(),
        series_empty(m, names[k]),
    ensures
        no_data(m, names),
{
}

} // verus!
