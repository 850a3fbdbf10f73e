use vstd::prelude::*;

verus! {

/// One stored reading: a value of a named series at a timestamp (seconds since the epoch).
struct Row {
    series: String,
    ts: i64,
    value: i64,
}

/// Why an append was refused.
#[derive(Debug, PartialEq, Eq, Structural, Clone, Copy)]
pub enum StoreError {
    /// A reading with the same series name and timestamp is already stored.
    DuplicateKey,
}

/// Which readings a store keeps when a retention policy is applied.
#[derive(Debug, PartialEq, Eq, Structural, Clone, Copy)]
pub enum RetentionPolicy {
    /// Keep every reading; the default.
    KeepAll,
    /// Keep the readings at or after the given timestamp.
    KeepSince(i64),
}

/// The readings of `m` that `policy` keeps.
pub open spec fn retained(m: Map<(Seq<char>, i64), i64>, policy: RetentionPolicy) -> Map<(Seq<char>, i64), i64> {
    match policy {
        RetentionPolicy::KeepAll => m,
        RetentionPolicy::KeepSince(cutoff) => Map::new(
            |k: (Seq<char>, i64)| m.contains_key(k) && k.1 >= cutoff,
            |k: (Seq<char>, i64)| m[k],
        ),
    }
}

/// A time series store: a set of `(series, timestamp) -> value` readings.
///
/// Rows are kept ordered by timestamp, and no two rows share a series name and a
/// timestamp, so the readings of one series are always listed in strictly
/// ascending timestamp order.
pub struct ReadingStore {
    rows: Vec<Row>,
    model: Ghost<Map<(Seq<char>, i64), i64>>,
}

/// `pts` is ordered by strictly ascending timestamp.
pub open spec fn strictly_ascending(pts: Seq<(i64, i64)>) -> bool {
    forall|i: int, j: int| 0 <= i < j < pts.len() ==> pts[i].0 < pts[j].0
}

impl ReadingStore {
    /// The stored readings, keyed by series name and timestamp.
    pub closed spec fn view(&self) -> Map<(Seq<char>, i64), i64> {
        self.model@
    }

    pub closed spec fn wf(&self) -> bool {
        &&& forall|i: int, j: int|
            0 <= i < j < self.rows@.len() ==> #[trigger] self.rows@[i].ts <= #[trigger] self.rows@[j].ts
        &&& forall|i: int, j: int|
            0 <= i < self.rows@.len() && 0 <= j < self.rows@.len() && i != j
                && #[trigger] self.rows@[i].ts == #[trigger] self.rows@[j].ts
                ==> self.rows@[i].series@ != self.rows@[j].series@
        &&& forall|k: (Seq<char>, i64)|
            #[trigger] self.model@.contains_key(k) ==> exists|i: int|
                0 <= i < self.rows@.len() && self.rows@[i].series@ == k.0 && #[trigger] self.rows@[i].ts == k.1
        &&& forall|i: int|
            0 <= i < self.rows@.len() ==> {
                let k = (#[trigger] self.rows@[i].series@, self.rows@[i].ts);
                self.model@.contains_key(k) && self.model@[k] == self.rows@[i].value
            }
    }

    /// `pts` lists exactly the readings of series `name`, by ascending timestamp.
    pub open spec fn lists_series(&self, name: Seq<char>, pts: Seq<(i64, i64)>) -> bool {
        &&& strictly_ascending(pts)
        &&& forall|t: i64, v: i64|
            #[trigger] pts.contains((t, v)) <==> (self@.contains_key((name, t)) && self@[(name, t)] == v)
    }

    /// An empty store.
    pub fn new() -> (r: ReadingStore)
        ensures
            r.wf(),
            r@ == Map::<(Seq<char>, i64), i64>::empty(),
    {
        ReadingStore { rows: Vec::new(), model: Ghost(Map::empty()) }
    }

    /// Whether a reading of `series` at `ts` is stored.
    pub fn contains(&self, series: &str, ts: i64) -> (r: bool)
        requires
            self.wf(),
        ensures
            r == self@.contains_key((series@, ts)),
    {
        let key = String::from_str(series);
        let mut i: usize = 0;
        while i < self.rows.len()
            invariant
                self.wf(),
                key@ == series@,
                0 <= i <= self.rows@.len(),
                forall|j: int| 0 <= j < i ==> !(#[trigger] self.rows@[j].ts == ts && self.rows@[j].series@ == series@),
            decreases self.rows@.len() - i,
        {
            if self.rows[i].ts == ts && self.rows[i].series == key {
                return true;
            }
            i = i + 1;
        }
        false
    }

    /// Stores `value` for `series` at `ts`; refuses a key that is already stored and
    /// then leaves the store as it was.
    pub fn append(&mut self, series: &str, ts: i64, value: i64) -> (r: Result<(), StoreError>)
        requires
            old(self).wf(),
        ensures
            final(self).wf(),
            old(self)@.contains_key((series@, ts)) ==> r == Err::<(), StoreError>(StoreError::DuplicateKey)
                && final(self)@ == old(self)@,
            !old(self)@.contains_key((series@, ts)) ==> r is Ok && final(self)@ == old(self)@.insert((series@, ts), value),
    {
        let key = String::from_str(series);
        // Insertion point: after every row whose timestamp is not later than `ts`.
        let mut p: usize = self.rows.len();
        while p > 0 && self.rows[p - 1].ts > ts
            invariant
                self.wf(),
                0 <= p <= self.rows@.len(),
                forall|j: int| p <= j < self.rows@.len() ==> #[trigger] self.rows@[j].ts > ts,
            decreases p,
        {
            p = p - 1;
        }
        // Rows with timestamp `ts` sit just before the insertion point.
        let mut q: usize = p;
        while q > 0 && self.rows[q - 1].ts == ts
            invariant
                self.wf(),
                key@ == series@,
                0 <= q <= p <= self.rows@.len(),
                forall|j: int| p <= j < self.rows@.len() ==> #[trigger] self.rows@[j].ts > ts,
                forall|j: int| q <= j < p ==> #[trigger] self.rows@[j].ts == ts && self.rows@[j].series@ != series@,
                p > 0 && q == p ==> self.rows@[p - 1].ts <= ts,
            decreases q,
        {
            if self.rows[q - 1].series == key {
                proof {
                    let k = (series@, ts);
                    assert(self.rows@[q - 1].series@ == k.0 && self.rows@[q - 1].ts == k.1);
                }
                return Err(StoreError::DuplicateKey);
            }
            q = q - 1;
        }
        proof {
            let k = (series@, ts);
            if self.model@.contains_key(k) {
                let i = choose|i: int|
                    0 <= i < self.rows@.len() && self.rows@[i].series@ == k.0 && #[trigger] self.rows@[i].ts == k.1;
                if i >= p as int {
                } else if i >= q as int {
                } else {
                    assert(self.rows@[q as int - 1].ts != ts || q == 0);
                    if q > 0 {
                        assert(self.rows@[i].ts <= self.rows@[q as int - 1].ts);
                        assert(self.rows@[q as int - 1].ts <= ts);
                    }
                    assert(false);
                }
            }
        }
        let ghost old_rows = self.rows@;
        let ghost old_model = self.model@;
        self.rows.insert(p, Row { series: key, ts, value });
        self.model = Ghost(self.model@.insert((series@, ts), value));
        proof {
            assert forall|i: int, j: int|
                0 <= i < j < self.rows@.len() implies #[trigger] self.rows@[i].ts <= #[trigger] self.rows@[j].ts by {
                if i < p && j > p {
                    assert(old_rows[i].ts <= old_rows[j - 1].ts);
                } else if i < p && j == p {
                    if p > 0 {
                        assert(old_rows[i].ts <= old_rows[p - 1].ts);
                    }
                } else if i == p && j > p {
                    assert(old_rows[j - 1].ts > ts);
                } else if i > p {
                    assert(old_rows[i - 1].ts <= old_rows[j - 1].ts);
                }
            }
            assert forall|i: int, j: int|
                0 <= i < self.rows@.len() && 0 <= j < self.rows@.len() && i != j
                    && #[trigger] self.rows@[i].ts == #[trigger] self.rows@[j].ts
                    implies self.rows@[i].series@ != self.rows@[j].series@ by {
                let oi = if i < p { i } else { i - 1 };
                let oj = if j < p { j } else { j - 1 };
                if i == p {
                    assert(old_model.contains_key((old_rows[oj].series@, old_rows[oj].ts)));
                } else if j == p {
                    assert(old_model.contains_key((old_rows[oi].series@, old_rows[oi].ts)));
                }
            }
            assert forall|k: (Seq<char>, i64)| #[trigger] self.model@.contains_key(k) implies exists|i: int|
                0 <= i < self.rows@.len() && self.rows@[i].series@ == k.0 && #[trigger] self.rows@[i].ts == k.1 by {
                if k == (series@, ts) {
                    assert(self.rows@[p as int].ts == k.1);
                } else {
                    let i = choose|i: int|
                        0 <= i < old_rows.len() && old_rows[i].series@ == k.0 && #[trigger] old_rows[i].ts == k.1;
                    if i < p {
                        assert(self.rows@[i].ts == k.1);
                    } else {
                        assert(self.rows@[i + 1].ts == k.1);
                    }
                }
            }
            assert forall|i: int| 0 <= i < self.rows@.len() implies {
                let k = (#[trigger] self.rows@[i].series@, self.rows@[i].ts);
                self.model@.contains_key(k) && self.model@[k] == self.rows@[i].value
            } by {
                if i < p {
                    assert(old_model.contains_key((old_rows[i].series@, old_rows[i].ts)));
                } else if i > p {
                    assert(old_model.contains_key((old_rows[i - 1].series@, old_rows[i - 1].ts)));
                }
            }
        }
        Ok(())
    }
    /// Every reading of `series`, as `(timestamp, value)` pairs by ascending timestamp;
    /// empty when the series has none.
    pub fn query_range(&self, series: &str) -> (r: Vec<(i64, i64)>)
        requires
            self.wf(),
        ensures
            self.lists_series(series@, r@),
    {
        let key = String::from_str(series);
        let mut out: Vec<(i64, i64)> = Vec::new();
        let mut i: usize = 0;
        while i < self.rows.len()
            invariant
                self.wf(),
                key@ == series@,
                0 <= i <= self.rows@.len(),
                strictly_ascending(out@),
                forall|t: i64, v: i64| #[trigger] out@.contains((t, v)) <==> exists|j: int|
                    0 <= j < i && self.rows@[j].series@ == series@ && #[trigger] self.rows@[j].ts == t
                        && self.rows@[j].value == v,
                out@.len() > 0 ==> exists|j: int|
                    0 <= j < i && self.rows@[j].series@ == series@ && #[trigger] self.rows@[j].ts == out@.last().0,
            decreases self.rows@.len() - i,
        {
            if self.rows[i].series == key {
                let ghost prev = out@;
                out.push((self.rows[i].ts, self.rows[i].value));
                proof {
                    if prev.len() > 0 {
                        let j = choose|j: int|
                            0 <= j < i && self.rows@[j].series@ == series@ && #[trigger] self.rows@[j].ts == prev.last().0;
                        assert(self.rows@[j].ts <= self.rows@[i as int].ts);
                        assert(self.rows@[j].ts != self.rows@[i as int].ts);
                        assert forall|a: int, b: int| 0 <= a < b < out@.len() implies out@[a].0 < out@[b].0 by {
                            if b == out@.len() - 1 {
                                assert(prev[a].0 <= prev.last().0);
                            } else {
                                assert(prev[a].0 < prev[b].0);
                            }
                        }
                    }
                    assert forall|t: i64, v: i64| #[trigger] out@.contains((t, v)) <==> exists|j: int|
                        0 <= j < i + 1 && self.rows@[j].series@ == series@ && #[trigger] self.rows@[j].ts == t
                            && self.rows@[j].value == v by {
                        if out@.contains((t, v)) {
                            let a = choose|a: int| 0 <= a < out@.len() && out@[a] == (t, v);
                            if a < prev.len() {
                                assert(prev.contains((t, v)));
                            }
                        }
                        if exists|j: int|
                            0 <= j < i + 1 && self.rows@[j].series@ == series@ && #[trigger] self.rows@[j].ts == t
                                && self.rows@[j].value == v {
                            let j = choose|j: int|
                                0 <= j < i + 1 && self.rows@[j].series@ == series@ && #[trigger] self.rows@[j].ts == t
                                    && self.rows@[j].value == v;
                            if j < i {
                                assert(prev.contains((t, v)));
                                let a = choose|a: int| 0 <= a < prev.len() && prev[a] == (t, v);
                                assert(out@[a] == (t, v));
                            } else {
                                assert(out@[out@.len() - 1] == (t, v));
                            }
                        }
                    }
                }
            }
            i = i + 1;
        }
        proof {
            assert forall|t: i64, v: i64|
                #[trigger] out@.contains((t, v)) <==> (self@.contains_key((series@, t)) && self@[(series@, t)] == v) by {
                if self@.contains_key((series@, t)) {
                    let j = choose|j: int|
                        0 <= j < self.rows@.len() && self.rows@[j].series@ == series@ && #[trigger] self.rows@[j].ts == t;
                    assert(self.model@.contains_key((self.rows@[j].series@, self.rows@[j].ts)));
                }
                if out@.contains((t, v)) {
                    let j = choose|j: int|
                        0 <= j < i && self.rows@[j].series@ == series@ && #[trigger] self.rows@[j].ts == t
                            && self.rows@[j].value == v;
                    assert(self.model@.contains_key((self.rows@[j].series@, self.rows@[j].ts)));
                }
            }
        }
        out
    }
}


impl ReadingStore {
    /// Drops the readings that `policy` does not keep.
    pub fn apply_retention(&mut self, policy: RetentionPolicy)
        requires
            old(self).wf(),
        ensures
            final(self).wf(),
            final(self)@ == retained(old(self)@, policy),
    {
        match policy {
            RetentionPolicy::KeepAll => {},
            RetentionPolicy::KeepSince(cutoff) => {
                // Rows are ordered by timestamp: the dropped ones form a prefix.
                let mut p: usize = 0;
                while p < self.rows.len() && self.rows[p].ts < cutoff
                    invariant
                        self.wf(),
                        0 <= p <= self.rows@.len(),
                        forall|j: int| 0 <= j < p ==> #[trigger] self.rows@[j].ts < cutoff,
                    decreases self.rows@.len() - p,
                {
                    p = p + 1;
                }
                let ghost old_rows = self.rows@;
                let ghost old_model = self.model@;
                let kept = self.rows.split_off(p);
                self.rows = kept;
                self.model = Ghost(retained(old_model, policy));
                proof {
                    assert forall|j: int| 0 <= j < old_rows.len() implies (#[trigger] old_rows[j].ts >= cutoff <==> j >= p) by {
                        if j >= p && p < old_rows.len() {
                            assert(old_rows[p as int].ts <= old_rows[j].ts);
                        }
                    }
                    assert forall|k: (Seq<char>, i64)| #[trigger] self.model@.contains_key(k) implies exists|i: int|
                        0 <= i < self.rows@.len() && self.rows@[i].series@ == k.0 && #[trigger] self.rows@[i].ts == k.1 by {
                        let i = choose|i: int|
                            0 <= i < old_rows.len() && old_rows[i].series@ == k.0 && #[trigger] old_rows[i].ts == k.1;
                        assert(self.rows@[i - p].ts == k.1);
                    }
                    assert forall|i: int| 0 <= i < self.rows@.len() implies {
                        let k = (#[trigger] self.rows@[i].series@, self.rows@[i].ts);
                        self.model@.contains_key(k) && self.model@[k] == self.rows@[i].value
                    } by {
                        assert(self.rows@[i] == old_rows[i + p]);
                        assert(old_model.contains_key((old_rows[i + p].series@, old_rows[i + p].ts)));
                    }
                    assert forall|i: int, j: int|
                        0 <= i < self.rows@.len() && 0 <= j < self.rows@.len() && i != j
                            && #[trigger] self.rows@[i].ts == #[trigger] self.rows@[j].ts
                            implies self.rows@[i].series@ != self.rows@[j].series@ by {
                        assert(self.rows@[i] == old_rows[i + p] && self.rows@[j] == old_rows[j + p]);
                    }
                    assert forall|i: int, j: int|
                        0 <= i < j < self.rows@.len() implies #[trigger] self.rows@[i].ts <= #[trigger] self.rows@[j].ts by {
                        assert(self.rows@[i] == old_rows[i + p] && self.rows@[j] == old_rows[j + p]);
                    }
                }
            },
        }
    }
}

/// The key of an append `(series, ts, value)`.
pub open spec fn key_of(a: (Seq<char>, i64, i64)) -> (Seq<char>, i64) {
    (a.0, a.1)
}

/// No two of `appends` share a series name and a timestamp.
pub open spec fn keys_distinct(appends: Seq<(Seq<char>, i64, i64)>) -> bool {
    forall|i: int, j: int|
        0 <= i < appends.len() && 0 <= j < appends.len() && i != j ==> key_of(#[trigger] appends[i]) != key_of(
            #[trigger] appends[j],
        )
}

/// The readings that `appends` store, in order, into an empty store.
pub open spec fn model_after(appends: Seq<(Seq<char>, i64, i64)>) -> Map<(Seq<char>, i64), i64>
    decreases appends.len(),
{
    if appends.len() == 0 {
        Map::empty()
    } else {
        model_after(appends.drop_last()).insert(key_of(appends.last()), appends.last().2)
    }
}

proof fn lemma_model_after(appends: Seq<(Seq<char>, i64, i64)>)
    requires
        keys_distinct(appends),
    ensures
        forall|k: (Seq<char>, i64)| #[trigger] model_after(appends).contains_key(k) <==> exists|i: int|
            0 <= i < appends.len() && key_of(#[trigger] appends[i]) == k,
        forall|i: int| 0 <= i < appends.len() ==> #[trigger] model_after(appends)[key_of(appends[i])] == appends[i].2,
    decreases appends.len(),
{
    if appends.len() > 0 {
        let p = appends.drop_last();
        assert(keys_distinct(p)) by {
            assert forall|i: int, j: int|
                0 <= i < p.len() && 0 <= j < p.len() && i != j implies key_of(#[trigger] p[i]) != key_of(#[trigger] p[j]) by {
                assert(p[i] == appends[i] && p[j] == appends[j]);
            }
        }
        lemma_model_after(p);
        let n = appends.len() - 1;
        assert forall|k: (Seq<char>, i64)| #[trigger] model_after(appends).contains_key(k) <==> exists|i: int|
            0 <= i < appends.len() && key_of(#[trigger] appends[i]) == k by {
            if model_after(p).contains_key(k) {
                let i = choose|i: int| 0 <= i < p.len() && key_of(#[trigger] p[i]) == k;
                assert(key_of(appends[i]) == k);
            }
            if exists|i: int| 0 <= i < appends.len() && key_of(#[trigger] appends[i]) == k {
                let i = choose|i: int| 0 <= i < appends.len() && key_of(#[trigger] appends[i]) == k;
                if i < n {
                    assert(key_of(p[i]) == k);
                }
            }
        }
        assert forall|i: int| 0 <= i < appends.len() implies #[trigger] model_after(appends)[key_of(appends[i])] == appends[i].2 by {
            if i < n {
                assert(key_of(appends[i]) != key_of(appends[n]));
                assert(p[i] == appends[i]);
                assert(model_after(p)[key_of(p[i])] == p[i].2);
            }
        }
    }
}

/// Appending readings with distinct keys, one after another, to an empty store: no
/// append finds its key already stored, so each succeeds and adds its reading.
pub proof fn lemma_distinct_appends_succeed(appends: Seq<(Seq<char>, i64, i64)>, i: int)
    requires
        keys_distinct(appends),
        0 <= i < appends.len(),
    ensures
        !model_after(appends.take(i)).contains_key(key_of(appends[i])),
        model_after(appends.take(i + 1)) == model_after(appends.take(i)).insert(key_of(appends[i]), appends[i].2),
{
    let p = appends.take(i);
    assert(keys_distinct(p)) by {
        assert forall|a: int, b: int|
            0 <= a < p.len() && 0 <= b < p.len() && a != b implies key_of(#[trigger] p[a]) != key_of(#[trigger] p[b]) by {
            assert(p[a] == appends[a] && p[b] == appends[b]);
        }
    }
    lemma_model_after(p);
    if model_after(p).contains_key(key_of(appends[i])) {
        let j = choose|j: int| 0 <= j < p.len() && key_of(#[trigger] p[j]) == key_of(appends[i]);
        assert(p[j] == appends[j]);
    }
    assert(appends.take(i + 1).drop_last() =~= p);
}

/// After appending readings with distinct keys to an empty store, the listing of a
/// series holds exactly the points appended to it, by ascending timestamp.
pub proof fn lemma_appends_listed(
    store: &ReadingStore,
    appends: Seq<(Seq<char>, i64, i64)>,
    name: Seq<char>,
    pts: Seq<(i64, i64)>,
)
    requires
        keys_distinct(appends),
        store@ == model_after(appends),
        store.lists_series(name, pts),
    ensures
        strictly_ascending(pts),
        forall|t: i64, v: i64| #[trigger] pts.contains((t, v)) <==> exists|i: int|
            0 <= i < appends.len() && #[trigger] appends[i] == (name, t, v),
{
    lemma_model_after(appends);
    assert forall|t: i64, v: i64| #[trigger] pts.contains((t, v)) <==> exists|i: int|
        0 <= i < appends.len() && #[trigger] appends[i] == (name, t, v) by {
        if pts.contains((t, v)) {
            assert(model_after(appends).contains_key((name, t)));
            let i = choose|i: int| 0 <= i < appends.len() && key_of(#[trigger] appends[i]) == (name, t);
            assert(appends[i] == (name, t, v));
        }
        if exists|i: int| 0 <= i < appends.len() && #[trigger] appends[i] == (name, t, v) {
            let i = choose|i: int| 0 <= i < appends.len() && #[trigger] appends[i] == (name, t, v);
            assert(key_of(appends[i]) == (name, t));
            assert(model_after(appends).contains_key((name, t)));
        }
    }
}

} // verus!
