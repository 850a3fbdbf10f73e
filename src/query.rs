use vstd::prelude::*;

verus! {

/// Most digits before the decimal point in an axis bound.
pub const MAX_INT_DIGITS: usize = 15;

pub open spec fn is_digit(c: char) -> bool {
    '0' <= c && c <= '9'
}

pub open spec fn digit_value(c: char) -> int {
    c as int - '0' as int
}

pub open spec fn all_digits(s: Seq<char>) -> bool {
    forall|i: int| 0 <= i < s.len() ==> is_digit(#[trigger] s[i])
}

/// The number that a string of decimal digits writes.
pub open spec fn digits_value(s: Seq<char>) -> int
    decreases s.len(),
{
    if s.len() == 0 {
        0
    } else {
        digits_value(s.drop_last()) * 10 + digit_value(s.last())
    }
}

pub open spec fn pow10(n: nat) -> int
    decreases n,
{
    if n == 0 {
        1
    } else {
        10 * pow10((n - 1) as nat)
    }
}

/// Digit `i` of a fraction, zero past its end.
pub open spec fn frac_digit(f: Seq<char>, i: int) -> int {
    if i < f.len() {
        digit_value(f[i])
    } else {
        0
    }
}

/// The fraction digits `f` in hundredths, rounded half up.
pub open spec fn frac_centi(f: Seq<char>) -> int {
    frac_digit(f, 0) * 10 + frac_digit(f, 1) + if frac_digit(f, 2) >= 5 {
        1int
    } else {
        0int
    }
}

/// `s` is at most fifteen digits, a point at `p`, then digits, with a digit somewhere.
pub open spec fn dot_split(s: Seq<char>, p: int) -> bool {
    &&& 0 <= p < s.len()
    &&& s[p] == '.'
    &&& p <= MAX_INT_DIGITS
    &&& s.len() >= 2
    &&& all_digits(s.take(p))
    &&& all_digits(s.skip(p + 1))
}

/// An unsigned decimal in hundredths: one to fifteen digits, or at most fifteen digits,
/// a point and any number of digits (`.5`, `3.`, `2.345`), rounded to hundredths.
pub open spec fn unsigned_centi(s: Seq<char>) -> Option<int> {
    if 1 <= s.len() <= MAX_INT_DIGITS && all_digits(s) {
        Some(100 * digits_value(s))
    } else if exists|p: int| dot_split(s, p) {
        let p = choose|p: int| dot_split(s, p);
        Some(100 * digits_value(s.take(p)) + frac_centi(s.skip(p + 1)))
    } else {
        None
    }
}

/// A decimal with an optional leading sign, in hundredths.
pub open spec fn decimal_centi(s: Seq<char>) -> Option<int> {
    if s.len() > 0 && s[0] == '-' {
        match unsigned_centi(s.drop_first()) {
            Some(v) => Some(-v),
            None => None,
        }
    } else if s.len() > 0 && s[0] == '+' {
        unsigned_centi(s.drop_first())
    } else {
        unsigned_centi(s)
    }
}

proof fn lemma_digits_bound(s: Seq<char>)
    requires
        all_digits(s),
    ensures
        0 <= digits_value(s) < pow10(s.len()),
    decreases s.len(),
{
    if s.len() > 0 {
        let p = s.drop_last();
        assert(all_digits(p)) by {
            assert forall|i: int| 0 <= i < p.len() implies is_digit(#[trigger] p[i]) by {
                assert(p[i] == s[i]);
            }
        }
        lemma_digits_bound(p);
        assert(is_digit(s[s.len() - 1]));
        let a = digits_value(p);
        let b = pow10(p.len());
        assert(a * 10 + 9 < b * 10) by (nonlinear_arith)
            requires
                a < b,
        ;
    }
}

/// The digits of `s` from `from` up to `to`, as a number, or `None` if one is no digit.
fn digits_in(s: &str, from: usize, to: usize) -> (r: Option<i64>)
    requires
        from <= to <= s@.len(),
        to - from <= MAX_INT_DIGITS,
    ensures
        all_digits(s@.subrange(from as int, to as int)) ==> r is Some && r->Some_0 == digits_value(
            s@.subrange(from as int, to as int),
        ),
        !all_digits(s@.subrange(from as int, to as int)) ==> r is None,
        r matches Some(v) ==> 0 <= v < pow10(MAX_INT_DIGITS as nat),
{
    proof {
        reveal_with_fuel(pow10, 16);
        assert(pow10(15) == 1_000_000_000_000_000);
    }
    let mut v: i64 = 0;
    let mut i: usize = from;
    while i < to
        invariant
            from <= i <= to <= s@.len(),
            to - from <= MAX_INT_DIGITS,
            all_digits(s@.subrange(from as int, i as int)),
            v == digits_value(s@.subrange(from as int, i as int)),
            0 <= v < pow10((i - from) as nat),
            pow10(15) == 1_000_000_000_000_000,
        decreases to - i,
    {
        let c = s.get_char(i);
        if !('0' <= c && c <= '9') {
            proof {
                assert(s@.subrange(from as int, to as int)[i - from] == c);
            }
            return None;
        }
        let ghost prev = s@.subrange(from as int, i as int);
        let ghost next = s@.subrange(from as int, i as int + 1);
        proof {
            assert(next.drop_last() =~= prev);
            assert forall|j: int| 0 <= j < next.len() implies is_digit(#[trigger] next[j]) by {
                if j < prev.len() {
                    assert(next[j] == prev[j]);
                }
            }
            lemma_digits_bound(next);
            lemma_pow10_mono((i + 1 - from) as nat, 15);
        }
        v = v * 10 + (c as u32 - '0' as u32) as i64;
        i = i + 1;
    }
    proof {
        lemma_pow10_mono((i - from) as nat, 15);
    }
    Some(v)
}

proof fn lemma_pow10_mono(a: nat, b: nat)
    requires
        a <= b,
    ensures
        pow10(a) <= pow10(b),
    decreases b,
{
    if a < b {
        lemma_pow10_mono(a, (b - 1) as nat);
        lemma_pow10_pos((b - 1) as nat);
    }
}

proof fn lemma_pow10_pos(a: nat)
    ensures
        pow10(a) >= 1,
    decreases a,
{
    if a > 0 {
        lemma_pow10_pos((a - 1) as nat);
    }
}

proof fn lemma_pow10_15()
    ensures
        pow10(15) == 1_000_000_000_000_000,
{
    reveal_with_fuel(pow10, 16);
}

/// Whether `s` has only digits from `from` up to `to`.
fn digits_only(s: &str, from: usize, to: usize) -> (r: bool)
    requires
        from <= to <= s@.len(),
    ensures
        r == all_digits(s@.subrange(from as int, to as int)),
{
    let mut i: usize = from;
    while i < to
        invariant
            from <= i <= to <= s@.len(),
            all_digits(s@.subrange(from as int, i as int)),
        decreases to - i,
    {
        let c = s.get_char(i);
        if !('0' <= c && c <= '9') {
            proof {
                assert(s@.subrange(from as int, to as int)[i - from] == c);
            }
            return false;
        }
        proof {
            let next = s@.subrange(from as int, i as int + 1);
            assert forall|j: int| 0 <= j < next.len() implies is_digit(#[trigger] next[j]) by {
                if j < i - from {
                    assert(next[j] == s@.subrange(from as int, i as int)[j]);
                }
            }
        }
        i = i + 1;
    }
    true
}

/// Digit `i` of `s`, zero at or past `to`.
fn digit_or_zero(s: &str, i: usize, to: usize) -> (r: i64)
    requires
        to <= s@.len(),
        i < to ==> is_digit(s@[i as int]),
    ensures
        r == if i < to {
            digit_value(s@[i as int])
        } else {
            0
        },
        0 <= r <= 9,
{
    if i < to {
        (s.get_char(i) as u32 - '0' as u32) as i64
    } else {
        0
    }
}

/// The unsigned decimal that `s` holds from `start` on, in hundredths.
fn unsigned_at(s: &str, start: usize) -> (r: Option<i64>)
    requires
        start <= s@.len(),
    ensures
        r is Some <==> unsigned_centi(s@.skip(start as int)) is Some,
        r matches Some(v) ==> v == unsigned_centi(s@.skip(start as int))->Some_0,
        r matches Some(v) ==> 0 <= v,
{
    let len = s.unicode_len();
    let ghost u = s@.skip(start as int);
    let n = len - start;
    proof {
        lemma_pow10_15();
        assert(u =~= s@.subrange(start as int, len as int));
    }
    if 1 <= n && n <= MAX_INT_DIGITS {
        if let Some(v) = digits_in(s, start, len) {
            proof {
                assert(all_digits(u));
            }
            return Some(100 * v);
        }
    }
    proof {
        assert(!(1 <= u.len() <= MAX_INT_DIGITS && all_digits(u)));
    }
    // The first point, if any.
    let mut p: usize = start;
    while p < len && s.get_char(p) != '.'
        invariant
            start <= p <= len,
            len == s@.len(),
            forall|j: int| start <= j < p ==> s@[j] != '.',
        decreases len - p,
    {
        p = p + 1;
    }
    let ghost q = p - start;
    proof {
        // Any split point is this first point: digits hold no point.
        assert forall|x: int| #[trigger] dot_split(u, x) implies x == q by {
            if x < q {
                assert(u[x] == s@[start + x]);
            } else if x > q {
                assert(u.take(x)[q] == u[q]);
                assert(u[q] == s@[p as int]);
            }
        }
    }
    if p == len || p - start > MAX_INT_DIGITS || n < 2 {
        return None;
    }
    let int_part = digits_in(s, start, p);
    let frac_ok = digits_only(s, p + 1, len);
    proof {
        assert(u.take(q) =~= s@.subrange(start as int, p as int));
        assert(u.skip(q + 1) =~= s@.subrange(p + 1, len as int));
        assert(u[q] == s@[p as int]);
    }
    match int_part {
        Some(a) => {
            if !frac_ok {
                return None;
            }
            let ghost f = s@.subrange(p + 1, len as int);
            proof {
                assert(dot_split(u, q));
                assert forall|j: int| p + 1 <= j < len implies is_digit(s@[j]) by {
                    assert(f[j - p - 1] == s@[j]);
                }
            }
            let d0 = digit_or_zero(s, p + 1, len);
            let d1 = if p + 1 < len {
                digit_or_zero(s, p + 2, len)
            } else {
                0
            };
            let d2 = if p + 1 < len && p + 2 < len {
                digit_or_zero(s, p + 3, len)
            } else {
                0
            };
            proof {
                assert(frac_digit(f, 0) == d0);
                assert(frac_digit(f, 1) == d1);
                assert(frac_digit(f, 2) == d2);
            }
            let round: i64 = if d2 >= 5 {
                1
            } else {
                0
            };
            Some(100 * a + d0 * 10 + d1 + round)
        },
        None => None,
    }
}

/// Reads an axis bound written as a decimal (`-12.5`, `+3`, `.25`, `100`), in
/// hundredths, rounding further digits half up.
pub fn parse_axis_bound(s: &str) -> (r: Option<i64>)
    ensures
        r is Some <==> decimal_centi(s@) is Some,
        r matches Some(v) ==> v == decimal_centi(s@)->Some_0,
{
    let len = s.unicode_len();
    if len > 0 && s.get_char(0) == '-' {
        proof {
            assert(s@.skip(1) =~= s@.drop_first());
        }
        match unsigned_at(s, 1) {
            Some(v) => Some(-v),
            None => None,
        }
    } else if len > 0 && s.get_char(0) == '+' {
        proof {
            assert(s@.skip(1) =~= s@.drop_first());
        }
        unsigned_at(s, 1)
    } else {
        proof {
            assert(s@.skip(0) =~= s@);
        }
        unsigned_at(s, 0)
    }
}

/// Why a chart request was refused.
#[derive(Debug, PartialEq, Eq)]
pub enum RenderError {
    /// A query key that a chart request does not take.
    UnknownKey(String),
    /// An axis bound that is no decimal; it holds the value as written.
    BadNumber(String),
    /// The request gave no title.
    MissingTitle,
    /// A requested series has no readings, or all readings share one timestamp.
    NoData,
    /// The value axis would not run upwards.
    InvertedRange,
}

/// What a chart shows: the series in request order, optional bounds of the value
/// axis in hundredths, and a title.
pub struct ChartRequest {
    pub series_names: Vec<String>,
    pub x_min: Option<i64>,
    pub x_max: Option<i64>,
    pub title: String,
}

pub open spec fn key_name() -> Seq<char> {
    seq!['n', 'a', 'm', 'e']
}

pub open spec fn key_xmin() -> Seq<char> {
    seq!['x', 'm', 'i', 'n']
}

pub open spec fn key_xmax() -> Seq<char> {
    seq!['x', 'm', 'a', 'x']
}

pub open spec fn key_title() -> Seq<char> {
    seq!['t', 'i', 't', 'l', 'e']
}

pub open spec fn pairs_view(p: Seq<(String, String)>) -> Seq<(Seq<char>, Seq<char>)> {
    p.map_values(|q: (String, String)| (q.0@, q.1@))
}

pub open spec fn names_view(v: Seq<String>) -> Seq<Seq<char>> {
    v.map_values(|s: String| s@)
}

pub open spec fn key_known(k: Seq<char>) -> bool {
    k == key_name() || k == key_xmin() || k == key_xmax() || k == key_title()
}

/// A query pair that a chart request takes: a known key, and a decimal for a bound.
pub open spec fn pair_ok(p: (Seq<char>, Seq<char>)) -> bool {
    key_known(p.0) && ((p.0 == key_xmin() || p.0 == key_xmax()) ==> decimal_centi(p.1) is Some)
}

/// The values of the `name` pairs, in order.
pub open spec fn names_in(pairs: Seq<(Seq<char>, Seq<char>)>) -> Seq<Seq<char>>
    decreases pairs.len(),
{
    if pairs.len() == 0 {
        Seq::empty()
    } else if pairs.last().0 == key_name() {
        names_in(pairs.drop_last()).push(pairs.last().1)
    } else {
        names_in(pairs.drop_last())
    }
}

/// The value of the last pair with key `key`.
pub open spec fn last_value(pairs: Seq<(Seq<char>, Seq<char>)>, key: Seq<char>) -> Option<Seq<char>>
    decreases pairs.len(),
{
    if pairs.len() == 0 {
        None
    } else if pairs.last().0 == key {
        Some(pairs.last().1)
    } else {
        last_value(pairs.drop_last(), key)
    }
}

/// The bound that the last pair with key `key` gives, in hundredths.
pub open spec fn bound_in(pairs: Seq<(Seq<char>, Seq<char>)>, key: Seq<char>) -> Option<int> {
    match last_value(pairs, key) {
        Some(v) => decimal_centi(v),
        None => None,
    }
}

pub open spec fn same_bound(a: Option<i64>, b: Option<int>) -> bool {
    (a is Some <==> b is Some) && (a is Some ==> a->Some_0 == b->Some_0)
}

/// `r` is what the query `pairs` asks for: the first pair that a chart request does
/// not take is refused; then a missing title; else the series of the `name` pairs in
/// order, and the last of each bound and of the title.
pub open spec fn parsed_as(pairs: Seq<(Seq<char>, Seq<char>)>, r: Result<ChartRequest, RenderError>) -> bool {
    if exists|i: int| 0 <= i < pairs.len() && !pair_ok(#[trigger] pairs[i]) {
        exists|i: int|
            0 <= i < pairs.len() && !pair_ok(#[trigger] pairs[i]) && (forall|j: int|
                0 <= j < i ==> pair_ok(#[trigger] pairs[j])) && if key_known(pairs[i].0) {
                r is Err && r->Err_0 is BadNumber && r->Err_0->BadNumber_0@ == pairs[i].1
            } else {
                r is Err && r->Err_0 is UnknownKey && r->Err_0->UnknownKey_0@ == pairs[i].0
            }
    } else if last_value(pairs, key_title()) is None {
        r is Err && r->Err_0 is MissingTitle
    } else {
        &&& r is Ok
        &&& names_view(r->Ok_0.series_names@) == names_in(pairs)
        &&& r->Ok_0.title@ == last_value(pairs, key_title())->Some_0
        &&& same_bound(r->Ok_0.x_min, bound_in(pairs, key_xmin()))
        &&& same_bound(r->Ok_0.x_max, bound_in(pairs, key_xmax()))
    }
}

/// Reads a chart request from its decoded query pairs.
pub fn parse_chart_request(pairs: &Vec<(String, String)>) -> (r: Result<ChartRequest, RenderError>)
    ensures
        parsed_as(pairs_view(pairs@), r),
{
    let ghost pv = pairs_view(pairs@);
    let k_name = String::from_str("name");
    let k_xmin = String::from_str("xmin");
    let k_xmax = String::from_str("xmax");
    let k_title = String::from_str("title");
    proof {
        reveal_strlit("name");
        reveal_strlit("xmin");
        reveal_strlit("xmax");
        reveal_strlit("title");
        assert(k_name@ =~= key_name());
        assert(k_xmin@ =~= key_xmin());
        assert(k_xmax@ =~= key_xmax());
        assert(k_title@ =~= key_title());
    }
    let mut names: Vec<String> = Vec::new();
    let mut x_min: Option<i64> = None;
    let mut x_max: Option<i64> = None;
    let mut title: Option<String> = None;
    let mut i: usize = 0;
    while i < pairs.len()
        invariant
            pv == pairs_view(pairs@),
            k_name@ == key_name(),
            k_xmin@ == key_xmin(),
            k_xmax@ == key_xmax(),
            k_title@ == key_title(),
            0 <= i <= pairs@.len(),
            forall|j: int| 0 <= j < i ==> pair_ok(#[trigger] pv[j]),
            names_view(names@) == names_in(pv.take(i as int)),
            same_bound(x_min, bound_in(pv.take(i as int), key_xmin())),
            same_bound(x_max, bound_in(pv.take(i as int), key_xmax())),
            title is Some <==> last_value(pv.take(i as int), key_title()) is Some,
            title is Some ==> title->Some_0@ == last_value(pv.take(i as int), key_title())->Some_0,
        decreases pairs@.len() - i,
    {
        let key = &pairs[i].0;
        let val = &pairs[i].1;
        let ghost prefix = pv.take(i as int);
        let ghost next = pv.take(i as int + 1);
        proof {
            assert(pv[i as int] == (key@, val@));
            assert(next.drop_last() =~= prefix);
            assert(next.last() == pv[i as int]);
        }
        if *key == k_name {
            let ghost before = names@;
            names.push(val.clone());
            proof {
                assert(names_view(names@) =~= names_view(before).push(val@));
            }
        } else if *key == k_xmin || *key == k_xmax {
            match parse_axis_bound(val.as_str()) {
                Some(v) => {
                    if *key == k_xmin {
                        x_min = Some(v);
                    } else {
                        x_max = Some(v);
                    }
                },
                None => {
                    proof {
                        assert(!pair_ok(pv[i as int]));
                    }
                    return Err(RenderError::BadNumber(val.clone()));
                },
            }
        } else if *key == k_title {
            title = Some(val.clone());
        } else {
            proof {
                assert(!pair_ok(pv[i as int]));
            }
            return Err(RenderError::UnknownKey(key.clone()));
        }
        i = i + 1;
    }
    proof {
        assert(pv.take(i as int) =~= pv);
    }
    match title {
        Some(title) => Ok(ChartRequest { series_names: names, x_min, x_max, title }),
        None => Err(RenderError::MissingTitle),
    }
}

/// The `(key, value)` pairs that form-urlencoded decoding reads from `query`.
pub uninterp spec fn form_pairs(query: Seq<char>) -> Seq<(Seq<char>, Seq<char>)>;

/// Relies on `url::form_urlencoded::parse`: splits the query on `&` and `=` and
/// percent-decodes each key and value; the pairs depend on the text alone, and an
/// empty query has none.
#[verifier::external_body]
fn decode_query(query: &str) -> (r: Vec<(String, String)>)
    ensures
        pairs_view(r@) == form_pairs(query@),
        query@.len() == 0 ==> r@.len() == 0,
{
    url::form_urlencoded::parse(query.as_bytes()).into_owned().collect()
}

/// Reads a chart request from the query string of its URL.
pub fn chart_request_from_query(query: &str) -> (r: Result<ChartRequest, RenderError>)
    ensures
        parsed_as(form_pairs(query@), r),
{
    let pairs = decode_query(query);
    parse_chart_request(&pairs)
}

/// A query without a title never yields a chart request.
pub proof fn lemma_no_title_no_request(pairs: Seq<(Seq<char>, Seq<char>)>, r: Result<ChartRequest, RenderError>)
    requires
        last_value(pairs, key_title()) is None,
        parsed_as(pairs, r),
    ensures
        r is Err,
{
    if exists|i: int| 0 <= i < pairs.len() && !pair_ok(#[trigger] pairs[i]) {
        let i = choose|i: int|
            0 <= i < pairs.len() && !pair_ok(#[trigger] pairs[i]) && (forall|j: int|
                0 <= j < i ==> pair_ok(#[trigger] pairs[j])) && if key_known(pairs[i].0) {
                r is Err && r->Err_0 is BadNumber && r->Err_0->BadNumber_0@ == pairs[i].1
            } else {
                r is Err && r->Err_0 is UnknownKey && r->Err_0->UnknownKey_0@ == pairs[i].0
            };
    }
}

} // verus!
