//! Series for plotting: usage per day, and temperatures smoothed by a local
//! line fit over a sliding window of days.
use vstd::prelude::*;
use crate::date::Date;
use crate::tmpmgr::{Temp, TempField, field_of};
use crate::measurement::{Measurement, strictly_increasing, lemma_increasing_gap};
use crate::regression::{
    SimpleRegression, Ratio, pair_of, prediction_of, point_in_range, MAX_X, MAX_Y,
};

verus! {

/// The first day of the window around day `d`: `floor(w / 2)` days before.
pub open spec fn window_lower(d: int, w: int) -> int {
    d - w / 2
}

/// The last day of the window around day `d`: `floor((w - 1) / 2)` days after.
pub open spec fn window_upper(d: int, w: int) -> int {
    d + (w - 1) / 2
}

pub open spec fn window_pred(d: int, w: int) -> spec_fn(Measurement) -> bool {
    |m: Measurement| window_lower(d, w) <= m.date.day() <= window_upper(d, w)
}

/// The readings whose dates lie in the window of width `w` around day `d`.
pub open spec fn window(s: Seq<Measurement>, d: int, w: int) -> Seq<Measurement> {
    s.filter(window_pred(d, w))
}

/// Readings as regression points: days after `base`, and amounts.
pub open spec fn points_of(s: Seq<Measurement>, base: int) -> Seq<(int, int)> {
    s.map_values(|m: Measurement| (m.date.day() - base, m.amount as int))
}

/// The smoothed value at position `k`: the line fitted to the readings in
/// the window around its date, taken at that date. Days count from the
/// first date of the series.
pub open spec fn smoothed_at(s: Seq<Measurement>, k: int, w: int) -> Option<(int, int)> {
    let base = s[0].date.day();
    let d = s[k].date.day();
    prediction_of(points_of(window(s, d, w), base), d - base)
}

/// What the smoother accepts: strictly increasing dates spanning at most
/// `MAX_X` days, and amounts of at most `MAX_Y` in magnitude.
pub open spec fn smoothable(s: Seq<Measurement>) -> bool {
    &&& strictly_increasing(s)
    &&& s.len() > 0 ==> s.last().date.day() - s[0].date.day() <= MAX_X
    &&& forall|i: int| 0 <= i < s.len() ==> -MAX_Y <= #[trigger] s[i].amount <= MAX_Y
}

/// A filter keeps exactly a run `[a, b)` when nothing before or after it passes.
pub proof fn lemma_filter_run<A>(s: Seq<A>, pred: spec_fn(A) -> bool, a: int, b: int)
    requires
        0 <= a <= b <= s.len(),
        forall|j: int| 0 <= j < a ==> !pred(#[trigger] s[j]),
        forall|j: int| a <= j < b ==> pred(#[trigger] s[j]),
        forall|j: int| b <= j < s.len() ==> !pred(#[trigger] s[j]),
    ensures
        s.filter(pred) == s.subrange(a, b),
    decreases s.len(),
{
    reveal(Seq::filter);
    if s.len() > 0 {
        let p = s.drop_last();
        let n = s.len() as int;
        if n > b {
            assert(!pred(s[n - 1]));
            lemma_filter_run(p, pred, a, b);
            assert(p.subrange(a, b) =~= s.subrange(a, b));
        } else if a < b {
            assert(pred(s[n - 1]));
            lemma_filter_run(p, pred, a, b - 1);
            assert(p.subrange(a, b - 1).push(s.last()) =~= s.subrange(a, b));
        } else {
            assert(!pred(s[n - 1]));
            lemma_filter_run(p, pred, n - 1, n - 1);
            assert(p.subrange(n - 1, n - 1) =~= s.subrange(a, b));
        }
    } else {
        assert(s.subrange(a, b) =~= s);
    }
}

/// In a gap-free daily series the window around the `k`-th date holds the
/// readings from `w / 2` positions before to `(w - 1) / 2` after, cut at the
/// ends of the series: exactly `w` readings away from the ends.
pub proof fn lemma_dense_window_size(s: Seq<Measurement>, k: int, w: int)
    requires
        w >= 1,
        0 <= k < s.len(),
        forall|j: int| 0 <= j < s.len() ==> #[trigger] s[j].date.day() == s[0].date.day() + j,
    ensures
        ({
            let first = if k - w / 2 > 0 { k - w / 2 } else { 0 };
            let end = if k + (w - 1) / 2 + 1 < s.len() { k + (w - 1) / 2 + 1 } else { s.len() as int };
            window(s, s[k].date.day(), w) == s.subrange(first, end)
        }),
        w / 2 <= k && k + (w - 1) / 2 < s.len() ==> window(s, s[k].date.day(), w).len() == w,
{
    let first = if k - w / 2 > 0 { k - w / 2 } else { 0 };
    let end = if k + (w - 1) / 2 + 1 < s.len() { k + (w - 1) / 2 + 1 } else { s.len() as int };
    let d = s[k].date.day();
    let pred = window_pred(d, w);
    assert(s[k].date.day() == s[0].date.day() + k);
    assert forall|j: int| 0 <= j < first implies !pred(#[trigger] s[j]) by {
        assert(s[j].date.day() == s[0].date.day() + j);
    }
    assert forall|j: int| first <= j < end implies pred(#[trigger] s[j]) by {
        assert(s[j].date.day() == s[0].date.day() + j);
    }
    assert forall|j: int| end <= j < s.len() implies !pred(#[trigger] s[j]) by {
        assert(s[j].date.day() == s[0].date.day() + j);
    }
    lemma_filter_run(s, pred, first, end);
}

proof fn lemma_points_push(s: Seq<Measurement>, start: int, i: int, base: int)
    requires
        0 <= start <= i < s.len(),
    ensures
        points_of(s.subrange(start, i + 1), base) == points_of(s.subrange(start, i), base).push(
            (s[i].date.day() - base, s[i].amount as int),
        ),
{
    assert(points_of(s.subrange(start, i + 1), base) =~= points_of(s.subrange(start, i), base).push(
        (s[i].date.day() - base, s[i].amount as int),
    ));
}

/// Smooths a series: for each reading, fits a line to the readings dated
/// within the window of `num_days` days around it (`num_days / 2` before,
/// `(num_days - 1) / 2` after) and takes its value at the reading's date.
/// Values are `None` where the window holds fewer than two distinct dates.
/// The start of the window only moves forward along the series.
pub fn calc_temp_series(data: &Vec<Measurement>, num_days: u8) -> (r: (Vec<Date>, Vec<Option<Ratio>>))
    requires
        num_days >= 1,
        smoothable(data@),
    ensures
        r.0@ == data@.map_values(|m: Measurement| m.date),
        r.1@.len() == data@.len(),
        forall|k: int| 0 <= k < data@.len() ==> pair_of(#[trigger] r.1@[k]) == smoothed_at(data@, k, num_days as int),
        forall|k: int| #![trigger r.1@[k]] 0 <= k < data@.len() ==> (r.1@[k] matches Some(q) ==> q.den > 0),
{
    let ghost s = data@;
    let ghost w = num_days as int;
    let n = data.len();
    let mut dates: Vec<Date> = Vec::new();
    let mut amounts: Vec<Option<Ratio>> = Vec::new();
    if n == 0 {
        proof {
            assert(dates@ =~= s.map_values(|m: Measurement| m.date));
        }
        return (dates, amounts);
    }
    let base: i64 = data[0].date.julian_day as i64;
    let before: i64 = num_days as i64 / 2;
    let after: i64 = (num_days as i64 - 1) / 2;
    let mut lower_init: usize = 0;
    let mut k: usize = 0;
    while k < n
        invariant
            n == s.len(),
            n > 0,
            s == data@,
            w == num_days as int,
            w >= 1,
            smoothable(s),
            base == s[0].date.day(),
            before == w / 2,
            after == (w - 1) / 2,
            0 <= k <= n,
            lower_init <= k,
            k < n ==> forall|j: int| 0 <= j < lower_init ==> s[j].date.day() < window_lower(s[k as int].date.day(), w),
            dates@ == s.subrange(0, k as int).map_values(|m: Measurement| m.date),
            amounts@.len() == k,
            forall|q: int| 0 <= q < k ==> pair_of(#[trigger] amounts@[q]) == smoothed_at(s, q, w),
            forall|q: int| #![trigger amounts@[q]] 0 <= q < k ==> (amounts@[q] matches Some(v) ==> v.den > 0),
        decreases n - k,
    {
        let d: i64 = data[k].date.julian_day as i64;
        let lower = d - before;
        let upper = d + after;
        let ghost pred = window_pred(d as int, w);
        let mut i: usize = lower_init;
        while (data[i].date.julian_day as i64) < lower
            invariant
                n == s.len(),
                s == data@,
                lower_init <= i <= k < n,
                lower == window_lower(d as int, w),
                d == s[k as int].date.day(),
                w >= 1,
                forall|j: int| 0 <= j < i ==> s[j].date.day() < lower,
            decreases k - i,
        {
            i = i + 1;
        }
        lower_init = i;
        let start = i;
        let mut reg = SimpleRegression::new();
        while i < n && (data[i].date.julian_day as i64) <= upper
            invariant
                n == s.len(),
                s == data@,
                smoothable(s),
                base == s[0].date.day(),
                start <= i <= n,
                start <= k < n,
                d == s[k as int].date.day(),
                lower == window_lower(d as int, w),
                upper == window_upper(d as int, w),
                upper - lower == w - 1,
                w <= 255,
                lower <= s[start as int].date.day(),
                forall|j: int| start <= j < i ==> s[j].date.day() <= upper,
                reg.wf(),
                reg.points() == points_of(s.subrange(start as int, i as int), base as int),
            decreases n - i,
        {
            proof {
                lemma_increasing_gap(s, start as int, i as int);
                lemma_increasing_gap(s, 0, i as int);
                lemma_increasing_gap(s, i as int, n - 1);
                lemma_points_push(s, start as int, i as int, base as int);
            }
            let x = data[i].date.julian_day as i64 - base;
            reg.add_data(x, data[i].amount);
            i = i + 1;
        }
        proof {
            assert forall|j: int| 0 <= j < start implies !pred(#[trigger] s[j]) by {}
            assert forall|j: int| start <= j < i implies pred(#[trigger] s[j]) by {
                if j > start {
                    assert(s[start as int].date.day() < s[j].date.day());
                }
            }
            assert forall|j: int| i <= j < n implies !pred(#[trigger] s[j]) by {
                if j > i {
                    assert(s[i as int].date.day() < s[j].date.day());
                }
            }
            lemma_filter_run(s, pred, start as int, i as int);
            lemma_increasing_gap(s, 0, k as int);
            lemma_increasing_gap(s, k as int, n - 1);
        }
        let value = reg.predict(d - base);
        dates.push(data[k].date);
        amounts.push(value);
        proof {
            assert(dates@ =~= s.subrange(0, k + 1).map_values(|m: Measurement| m.date));
            if k + 1 < n {
                assert(s[k as int].date.day() < s[k + 1].date.day());
            }
        }
        k = k + 1;
    }
    proof {
        assert(s.subrange(0, n as int) =~= s);
    }
    (dates, amounts)
}

/// Usage per day for each reading after the first: its amount over the
/// days since the previous reading, dated at the reading.
pub fn calc_measurement_series(data: &Vec<Measurement>) -> (r: (Vec<Date>, Vec<Ratio>))
    requires
        strictly_increasing(data@),
    ensures
        data@.len() == 0 ==> r.0@.len() == 0 && r.1@.len() == 0,
        data@.len() > 0 ==> r.0@.len() == data@.len() - 1 && r.1@.len() == data@.len() - 1,
        forall|k: int| 0 <= k < r.0@.len() ==> #[trigger] r.0@[k] == data@[k + 1].date,
        forall|k: int|
            0 <= k < r.1@.len() ==> #[trigger] r.1@[k] == (Ratio {
                num: data@[k + 1].amount as i128,
                den: (data@[k + 1].date.day() - data@[k].date.day()) as i128,
            }),
        forall|k: int| 0 <= k < r.1@.len() ==> #[trigger] r.1@[k].den > 0,
{
    let mut dates: Vec<Date> = Vec::new();
    let mut amounts: Vec<Ratio> = Vec::new();
    let mut i: usize = 1;
    while i < data.len()
        invariant
            strictly_increasing(data@),
            1 <= i,
            data@.len() > 0 ==> i <= data@.len(),
            data@.len() == 0 ==> i == 1,
            dates@.len() == i - 1,
            amounts@.len() == i - 1,
            forall|k: int| 0 <= k < dates@.len() ==> #[trigger] dates@[k] == data@[k + 1].date,
            forall|k: int|
                0 <= k < amounts@.len() ==> #[trigger] amounts@[k] == (Ratio {
                    num: data@[k + 1].amount as i128,
                    den: (data@[k + 1].date.day() - data@[k].date.day()) as i128,
                }),
            forall|k: int| 0 <= k < amounts@.len() ==> #[trigger] amounts@[k].den > 0,
        decreases data@.len() - i,
    {
        let prev = &data[i - 1];
        let curr = &data[i];
        proof {
            assert(data@[i - 1].date.day() < data@[i as int].date.day());
        }
        dates.push(curr.date);
        let days = prev.date.days_until(&curr.date);
        amounts.push(Ratio { num: curr.amount as i128, den: days as i128 });
        i = i + 1;
    }
    (dates, amounts)
}

pub open spec fn dates_increasing(s: Seq<Date>) -> bool {
    forall|i: int, j: int| 0 <= i < j < s.len() ==> s[i].day() < s[j].day()
}

/// Whether some reading of `s` is dated `d`.
pub open spec fn has_date(s: Seq<Measurement>, d: Date) -> bool {
    exists|i: int| 0 <= i < s.len() && s[i].date == d
}

/// Adds `d` to an increasing list of dates, where it is not there yet.
fn insert_date(v: &mut Vec<Date>, d: Date)
    requires
        dates_increasing(old(v)@),
    ensures
        dates_increasing(final(v)@),
        forall|x: Date| final(v)@.contains(x) <==> (old(v)@.contains(x) || x == d),
{
    let ghost s = v@;
    let mut i: usize = 0;
    while i < v.len() && v[i].julian_day < d.julian_day
        invariant
            v@ == s,
            i <= s.len(),
            forall|j: int| 0 <= j < i ==> #[trigger] s[j].day() < d.day(),
        decreases s.len() - i,
    {
        i = i + 1;
    }
    if i < v.len() && v[i].julian_day == d.julian_day {
        proof {
            assert(s[i as int] == d);
        }
        return;
    }
    v.insert(i, d);
    proof {
        s.insert_ensures(i as int, d);
        let t = v@;
        assert forall|a: int, b: int| 0 <= a < b < t.len() implies t[a].day() < t[b].day() by {
            if b < i {
            } else if b == i {
            } else if a < i {
                assert(t[b] == s[b - 1]);
                assert(s[i as int].day() > d.day());
                if b - 1 > i {
                    assert(s[i as int].day() < s[b - 1].day());
                }
            } else if a == i {
                assert(t[b] == s[b - 1]);
                assert(s[i as int].day() > d.day());
                if b - 1 > i {
                    assert(s[i as int].day() < s[b - 1].day());
                }
            } else {
                assert(t[a] == s[a - 1]);
                assert(t[b] == s[b - 1]);
            }
        }
        assert forall|x: Date| t.contains(x) <==> (s.contains(x) || x == d) by {
            if t.contains(x) {
                let k = choose|k: int| 0 <= k < t.len() && t[k] == x;
                if k < i {
                    assert(s[k] == x);
                } else if k > i {
                    assert(s[k - 1] == x);
                }
            }
            if s.contains(x) {
                let k = choose|k: int| 0 <= k < s.len() && s[k] == x;
                if k < i {
                    assert(t[k] == x);
                } else {
                    assert(t[k + 1] == x);
                }
            }
            if x == d {
                assert(t[i as int] == x);
            }
        }
    }
}

/// The dates of the readings of both series, increasing, each once.
pub fn measurement_dates(electric: &Vec<Measurement>, gas: &Vec<Measurement>) -> (r: Vec<Date>)
    ensures
        dates_increasing(r@),
        forall|d: Date| r@.contains(d) <==> (has_date(electric@, d) || has_date(gas@, d)),
{
    let mut dates: Vec<Date> = Vec::new();
    let mut i: usize = 0;
    while i < electric.len()
        invariant
            i <= electric@.len(),
            dates_increasing(dates@),
            forall|d: Date| dates@.contains(d) <==> exists|j: int| 0 <= j < i && electric@[j].date == d,
        decreases electric@.len() - i,
    {
        insert_date(&mut dates, electric[i].date);
        proof {
            assert forall|d: Date| dates@.contains(d) <==> exists|j: int| 0 <= j < i + 1 && electric@[j].date == d by {
                if d == electric@[i as int].date {
                    assert(0 <= i < i + 1 && electric@[i as int].date == d);
                }
                if exists|j: int| 0 <= j < i + 1 && electric@[j].date == d {
                    let j = choose|j: int| 0 <= j < i + 1 && electric@[j].date == d;
                    if j < i {
                        assert(exists|j: int| 0 <= j < i && electric@[j].date == d);
                    }
                }
            }
        }
        i = i + 1;
    }
    let mut k: usize = 0;
    while k < gas.len()
        invariant
            k <= gas@.len(),
            dates_increasing(dates@),
            forall|d: Date| dates@.contains(d) <==> (has_date(electric@, d) || exists|j: int| 0 <= j < k && gas@[j].date == d),
        decreases gas@.len() - k,
    {
        insert_date(&mut dates, gas[k].date);
        proof {
            assert forall|d: Date| dates@.contains(d) <==> (has_date(electric@, d) || exists|j: int| 0 <= j < k + 1 && gas@[j].date == d) by {
                if d == gas@[k as int].date {
                    assert(0 <= k < k + 1 && gas@[k as int].date == d);
                }
                if exists|j: int| 0 <= j < k + 1 && gas@[j].date == d {
                    let j = choose|j: int| 0 <= j < k + 1 && gas@[j].date == d;
                    if j < k {
                        assert(exists|j: int| 0 <= j < k && gas@[j].date == d);
                    }
                }
            }
        }
        k = k + 1;
    }
    dates
}

/// One reading per day from daily temperatures: the chosen temperature at
/// each date.
pub fn temp_series(daily: &Vec<(Date, Temp)>, field: TempField) -> (r: Vec<Measurement>)
    ensures
        r@.len() == daily@.len(),
        forall|k: int|
            0 <= k < r@.len() ==> (#[trigger] r@[k]).date == daily@[k].0 && r@[k].amount == field_of(
                daily@[k].1,
                field,
            ),
{
    let mut out: Vec<Measurement> = Vec::new();
    let mut i: usize = 0;
    while i < daily.len()
        invariant
            i <= daily@.len(),
            out@.len() == i,
            forall|k: int|
                0 <= k < i ==> (#[trigger] out@[k]).date == daily@[k].0 && out@[k].amount
                    == field_of(daily@[k].1, field),
        decreases daily@.len() - i,
    {
        let (date, t) = daily[i];
        let amount = match field {
            TempField::Min => t.min,
            TempField::Mean => t.mean,
            TempField::Max => t.max,
        };
        out.push(Measurement { date, amount });
        i = i + 1;
    }
    out
}

} // verus!
