//! Daily temperatures combined from several providers, kept per date so that
//! each date is fetched at most once.
use vstd::prelude::*;
use std::collections::HashMap;
use crate::date::Date;
use crate::regression::{Ratio, pair_of};

verus! {

broadcast use vstd::std_specs::hash::group_hash_axioms;

/// One day's temperatures, as fixed-point integers.
#[derive(Clone, Copy, Debug, PartialEq, Eq, Structural)]
pub struct Temp {
    pub min: i64,
    pub mean: i64,
    pub max: i64,
}

/// The number of providers that reported.
pub open spec fn reported(rs: Seq<Option<Temp>>) -> int
    decreases rs.len(),
{
    if rs.len() == 0 {
        0
    } else {
        reported(rs.drop_last()) + if rs.last() is Some { 1int } else { 0int }
    }
}

/// The sum of the reported means.
pub open spec fn mean_total(rs: Seq<Option<Temp>>) -> int
    decreases rs.len(),
{
    if rs.len() == 0 {
        0
    } else {
        mean_total(rs.drop_last()) + match rs.last() {
            Some(t) => t.mean as int,
            None => 0,
        }
    }
}

/// The least reported minimum (0 where none reported).
pub open spec fn lowest(rs: Seq<Option<Temp>>) -> int
    decreases rs.len(),
{
    if rs.len() == 0 {
        0
    } else {
        let rest = rs.drop_last();
        match rs.last() {
            Some(t) => if reported(rest) == 0 || t.min < lowest(rest) {
                t.min as int
            } else {
                lowest(rest)
            },
            None => lowest(rest),
        }
    }
}

/// The greatest reported maximum (0 where none reported).
pub open spec fn highest(rs: Seq<Option<Temp>>) -> int
    decreases rs.len(),
{
    if rs.len() == 0 {
        0
    } else {
        let rest = rs.drop_last();
        match rs.last() {
            Some(t) => if reported(rest) == 0 || t.max > highest(rest) {
                t.max as int
            } else {
                highest(rest)
            },
            None => highest(rest),
        }
    }
}

/// The canonical temperature of a day from the providers' reports: the least
/// minimum, the mean of the means (rounded down), and the greatest maximum;
/// `None` where no provider reported.
pub open spec fn combined(rs: Seq<Option<Temp>>) -> Option<Temp> {
    if reported(rs) == 0 {
        None
    } else {
        Some(
            Temp {
                min: lowest(rs) as i64,
                mean: (mean_total(rs) / reported(rs)) as i64,
                max: highest(rs) as i64,
            },
        )
    }
}

/// A reading as a report whose minimum, mean and maximum are all that reading.
pub open spec fn as_report(v: i64) -> Option<Temp> {
    Some(Temp { min: v, mean: v, max: v })
}

pub open spec fn as_reports(readings: Seq<i64>) -> Seq<Option<Temp>> {
    readings.map_values(|v: i64| as_report(v))
}

impl Temp {
    /// A day's temperatures from its hourly readings: the least, the mean
    /// (rounded down) and the greatest; `None` without readings.
    pub fn from_readings(readings: &Vec<i64>) -> (r: Option<Temp>)
        ensures
            r == combined(as_reports(readings@)),
            r is None <==> readings@.len() == 0,
    {
        let mut reports: Vec<Option<Temp>> = Vec::new();
        let mut i: usize = 0;
        while i < readings.len()
            invariant
                i <= readings@.len(),
                reports@ == as_reports(readings@.subrange(0, i as int)),
            decreases readings@.len() - i,
        {
            let v = readings[i];
            reports.push(Some(Temp { min: v, mean: v, max: v }));
            proof {
                assert(as_reports(readings@.subrange(0, i + 1)) =~= as_reports(readings@.subrange(0, i as int)).push(as_report(v)));
            }
            i = i + 1;
        }
        proof {
            assert(readings@.subrange(0, readings@.len() as int) =~= readings@);
            lemma_all_reported(as_reports(readings@));
        }
        combine_temps(&reports)
    }
}

proof fn lemma_all_reported(rs: Seq<Option<Temp>>)
    requires
        forall|i: int| 0 <= i < rs.len() ==> #[trigger] rs[i] is Some,
    ensures
        reported(rs) == rs.len(),
    decreases rs.len(),
{
    if rs.len() > 0 {
        let p = rs.drop_last();
        assert forall|i: int| 0 <= i < p.len() implies #[trigger] p[i] is Some by {
            assert(p[i] == rs[i]);
        }
        lemma_all_reported(p);
        assert(rs[rs.len() - 1] is Some);
    }
}

proof fn lemma_prefix_step(rs: Seq<Option<Temp>>, i: int)
    requires
        0 <= i < rs.len(),
    ensures
        rs.subrange(0, i + 1).drop_last() == rs.subrange(0, i),
        rs.subrange(0, i + 1).last() == rs[i],
{
    assert(rs.subrange(0, i + 1).drop_last() =~= rs.subrange(0, i));
}

/// The reported values lie between the least and the greatest of them.
proof fn lemma_reported_bounds(rs: Seq<Option<Temp>>)
    ensures
        0 <= reported(rs) <= rs.len(),
        reported(rs) * i64::MIN <= mean_total(rs) <= reported(rs) * i64::MAX,
        reported(rs) > 0 ==> i64::MIN <= lowest(rs) <= i64::MAX && i64::MIN <= highest(rs)
            <= i64::MAX,
    decreases rs.len(),
{
    if rs.len() > 0 {
        lemma_reported_bounds(rs.drop_last());
        let r = reported(rs.drop_last());
        assert((r + 1) * i64::MIN == r * i64::MIN + i64::MIN) by (nonlinear_arith);
        assert((r + 1) * i64::MAX == r * i64::MAX + i64::MAX) by (nonlinear_arith);
    }
}

proof fn lemma_mean_in_range(total: int, count: int)
    requires
        count > 0,
        count * i64::MIN <= total <= count * i64::MAX,
    ensures
        i64::MIN <= total / count <= i64::MAX,
{
    vstd::arithmetic::div_mod::lemma_fundamental_div_mod(total, count);
    let q = total / count;
    let r = total % count;
    assert(0 <= r < count);
    assert(i64::MIN <= q <= i64::MAX) by (nonlinear_arith)
        requires
            count > 0,
            count * i64::MIN <= total <= count * i64::MAX,
            total == count * q + r,
            0 <= r < count,
    ;
}

/// Combines the providers' reports for one day: least minimum, mean of the
/// means rounded down, greatest maximum; `None` where none reported.
pub fn combine_temps(responses: &Vec<Option<Temp>>) -> (r: Option<Temp>)
    ensures
        r == combined(responses@),
{
    let ghost rs = responses@;
    let mut min: i64 = 0;
    let mut max: i64 = 0;
    let mut mean_sum: i128 = 0;
    let mut count: usize = 0;
    let mut i: usize = 0;
    while i < responses.len()
        invariant
            rs == responses@,
            0 <= i <= rs.len(),
            count == reported(rs.subrange(0, i as int)),
            mean_sum == mean_total(rs.subrange(0, i as int)),
            count > 0 ==> min == lowest(rs.subrange(0, i as int)),
            count > 0 ==> max == highest(rs.subrange(0, i as int)),
        decreases rs.len() - i,
    {
        proof {
            lemma_prefix_step(rs, i as int);
            lemma_reported_bounds(rs.subrange(0, i as int));
            let c = count as int;
            assert(c * i64::MIN >= i * i64::MIN && c * i64::MAX <= i * i64::MAX) by (nonlinear_arith)
                requires
                    0 <= c <= i,
            ;
            assert(i * i64::MIN > i128::MIN + i64::MIN && i * i64::MAX < i128::MAX - i64::MAX)
                by (nonlinear_arith)
                requires
                    0 <= i < 0x1_0000_0000_0000_0000,
            ;
        }
        match responses[i] {
            Some(t) => {
                if count == 0 || t.min < min {
                    min = t.min;
                }
                if count == 0 || t.max > max {
                    max = t.max;
                }
                mean_sum = mean_sum + t.mean as i128;
                count = count + 1;
            },
            None => {},
        }
        i = i + 1;
    }
    proof {
        assert(rs.subrange(0, rs.len() as int) =~= rs);
        lemma_reported_bounds(rs);
    }
    if count == 0 {
        None
    } else {
        proof {
            lemma_mean_in_range(mean_sum as int, count as int);
        }
        let mean = match mean_sum.checked_div_euclid(count as i128) {
            Some(m) => m as i64,
            None => {
                proof {
                    assert(false);
                }
                0
            },
        };
        Some(Temp { min, mean, max })
    }
}

/// Why a temperature cannot be had.
#[derive(Clone, Copy, Debug, PartialEq, Eq, Structural)]
pub enum TempError {
    /// The date is today or later: only past days have a temperature history.
    NotInPast,
}

/// What a lookup found: a known value, or that the providers must be asked.
#[derive(Clone, Copy, Debug, PartialEq, Eq, Structural)]
pub enum TempLookup {
    Cached(Option<Temp>),
    Fetch,
}

pub open spec fn is_past(date: Date, today: Date) -> bool {
    date.day() < today.day()
}

/// Whether a history can be asked for `date` on `today`: only for past days.
pub fn check_past(date: &Date, today: &Date) -> (r: Result<(), TempError>)
    ensures
        r is Ok <==> is_past(*date, *today),
        r matches Err(e) ==> e == TempError::NotInPast,
{
    if date.julian_day < today.julian_day {
        Ok(())
    } else {
        Err(TempError::NotInPast)
    }
}

/// The answer to a lookup of `date` in `cache`.
pub open spec fn lookup(cache: Map<i32, Option<Temp>>, today: Date, date: Date) -> Result<
    TempLookup,
    TempError,
> {
    if !is_past(date, today) {
        Err(TempError::NotInPast)
    } else if cache.contains_key(date.julian_day) {
        Ok(TempLookup::Cached(cache[date.julian_day]))
    } else {
        Ok(TempLookup::Fetch)
    }
}

/// The cache after recording the providers' reports `rs` for `date`: a date
/// is written once and never changed.
pub open spec fn recorded(
    cache: Map<i32, Option<Temp>>,
    today: Date,
    date: Date,
    rs: Seq<Option<Temp>>,
) -> Map<i32, Option<Temp>> {
    if is_past(date, today) && !cache.contains_key(date.julian_day) {
        cache.insert(date.julian_day, combined(rs))
    } else {
        cache
    }
}

/// The value returned on recording `rs` for `date`: the value now cached.
pub open spec fn record_result(
    cache: Map<i32, Option<Temp>>,
    today: Date,
    date: Date,
    rs: Seq<Option<Temp>>,
) -> Result<Option<Temp>, TempError> {
    if !is_past(date, today) {
        Err(TempError::NotInPast)
    } else {
        Ok(recorded(cache, today, date, rs)[date.julian_day])
    }
}

/// Asking twice for one date reaches the providers at most once: once the
/// reports for a date are recorded, a lookup of it finds the recorded value,
/// and recording other reports for it changes neither the cache nor the value.
pub proof fn lemma_fetch_at_most_once(
    cache: Map<i32, Option<Temp>>,
    today: Date,
    date: Date,
    rs: Seq<Option<Temp>>,
    later: Seq<Option<Temp>>,
)
    requires
        is_past(date, today),
    ensures
        ({
            let c = recorded(cache, today, date, rs);
            let r = record_result(cache, today, date, rs);
            &&& r is Ok
            &&& lookup(c, today, date) == Ok::<TempLookup, TempError>(TempLookup::Cached(r->Ok_0))
            &&& recorded(c, today, date, later) == c
            &&& record_result(c, today, date, later) == r
        }),
{
}

/// Which of a day's temperatures to read.
#[derive(Clone, Copy, Debug, PartialEq, Eq, Structural)]
pub enum TempField {
    Min,
    Mean,
    Max,
}

pub open spec fn field_of(t: Temp, f: TempField) -> int {
    match f {
        TempField::Min => t.min as int,
        TempField::Mean => t.mean as int,
        TempField::Max => t.max as int,
    }
}

/// Whether a value is cached, and not "no data", for each of the `n` days
/// from Julian day `start`.
pub open spec fn all_known(cache: Map<i32, Option<Temp>>, start: int, n: int) -> bool {
    forall|i: int|
        0 <= i < n ==> cache.contains_key((start + i) as i32) && #[trigger] cache[(start + i) as i32] is Some
}

/// The sum of the chosen temperature over the `n` days from Julian day `start`.
pub open spec fn field_total(cache: Map<i32, Option<Temp>>, start: int, n: int, f: TempField) -> int
    decreases n,
{
    if n <= 0 {
        0
    } else {
        field_total(cache, start, n - 1, f) + field_of(cache[(start + n - 1) as i32]->Some_0, f)
    }
}

/// The average of the chosen temperature over the dates from `from` up to,
/// not including, `to`; `None` where the range is empty or some day in it
/// has no cached value.
pub open spec fn average_of(cache: Map<i32, Option<Temp>>, from: Date, to: Date, f: TempField) -> Option<(int, int)> {
    let n = to.day() - from.day();
    if n > 0 && all_known(cache, from.day(), n) {
        Some((field_total(cache, from.day(), n, f), n))
    } else {
        None
    }
}

proof fn lemma_field_bound(t: Temp, f: TempField)
    ensures
        i64::MIN <= field_of(t, f) <= i64::MAX,
{
}

/// Temperatures per past date, from the configured providers, each date
/// combined once and then kept.
pub struct TempDataManager {
    today: Date,
    cache: HashMap<i32, Option<Temp>>,
}

impl TempDataManager {
    /// The values known so far, by Julian day.
    pub closed spec fn cache(&self) -> Map<i32, Option<Temp>> {
        self.cache@
    }

    pub closed spec fn today(&self) -> Date {
        self.today
    }

    /// A manager with nothing cached, for a process started on `today`.
    pub fn new(today: Date) -> (r: TempDataManager)
        ensures
            r.cache() == Map::<i32, Option<Temp>>::empty(),
            r.today() == today,
    {
        TempDataManager { today, cache: HashMap::new() }
    }

    /// The dates from `start_date` up to, not including, `end_date`.
    pub fn date_range(start_date: Date, end_date: Date) -> (r: Vec<Date>)
        ensures
            r@.len() == if end_date.day() > start_date.day() {
                end_date.day() - start_date.day()
            } else {
                0
            },
            forall|i: int| 0 <= i < r@.len() ==> #[trigger] r@[i].day() == start_date.day() + i,
    {
        let mut dates: Vec<Date> = Vec::new();
        let days: i64 = start_date.days_until(&end_date);
        let mut i: i64 = 0;
        while i < days
            invariant
                days == end_date.day() - start_date.day(),
                0 <= i,
                days > 0 ==> i <= days,
                days <= 0 ==> i == 0,
                dates@.len() == i,
                forall|j: int| 0 <= j < dates@.len() ==> #[trigger] dates@[j].day() == start_date.day() + j,
            decreases days - i,
        {
            dates.push(Date { julian_day: (start_date.julian_day as i64 + i) as i32 });
            i = i + 1;
        }
        dates
    }

    /// The average of the chosen temperature over the cached days from
    /// `from_date` up to, not including, `to_date`.
    fn get_avg_temp(&self, from_date: Date, to_date: Date, field: TempField) -> (r: Option<Ratio>)
        ensures
            pair_of(r) == average_of(self.cache(), from_date, to_date, field),
            r matches Some(q) ==> q.den > 0,
    {
        let days: i64 = from_date.days_until(&to_date);
        if days <= 0 {
            return None;
        }
        let mut total: i128 = 0;
        let mut i: i64 = 0;
        while i < days
            invariant
                days == to_date.day() - from_date.day(),
                0 <= i <= days,
                days <= 0x1_0000_0000,
                all_known(self.cache(), from_date.day(), i as int),
                total == field_total(self.cache(), from_date.day(), i as int, field),
                -(i * 0x8000_0000_0000_0000) <= total <= i * 0x8000_0000_0000_0000,
            decreases days - i,
        {
            let key = (from_date.julian_day as i64 + i) as i32;
            match self.cache.get(&key) {
                Some(Some(t)) => {
                    let v: i64 = match field {
                        TempField::Min => t.min,
                        TempField::Mean => t.mean,
                        TempField::Max => t.max,
                    };
                    proof {
                        assert(i * 0x8000_0000_0000_0000 <= 0x1_0000_0000 * 0x8000_0000_0000_0000)
                            by (nonlinear_arith)
                            requires
                                0 <= i <= 0x1_0000_0000,
                        ;
                    }
                    total = total + v as i128;
                    proof {
                        assert(field_total(self.cache(), from_date.day(), i + 1, field) == total);
                        assert forall|j: int| 0 <= j < i + 1 implies self.cache().contains_key((from_date.day() + j) as i32) && #[trigger] self.cache()[(from_date.day() + j) as i32] is Some by {
                            if j < i {
                                assert(all_known(self.cache(), from_date.day(), i as int));
                                assert(self.cache()[(from_date.day() + j) as i32] is Some);
                            }
                        }
                    }
                },
                _ => {
                    proof {
                        assert(!self.cache().contains_key(key) || self.cache()[key] is None);
                        assert(!all_known(self.cache(), from_date.day(), days as int)) by {
                            if all_known(self.cache(), from_date.day(), days as int) {
                                assert(self.cache()[(from_date.day() + i) as i32] is Some);
                            }
                        }
                    }
                    return None;
                },
            }
            i = i + 1;
        }
        Some(Ratio { num: total, den: days as i128 })
    }

    /// The average daily minimum over the cached days from `from_date` up to,
    /// not including, `to_date`.
    pub fn get_avg_min_temp(&self, from_date: Date, to_date: Date) -> (r: Option<Ratio>)
        ensures
            pair_of(r) == average_of(self.cache(), from_date, to_date, TempField::Min),
            r matches Some(q) ==> q.den > 0,
    {
        self.get_avg_temp(from_date, to_date, TempField::Min)
    }

    /// The average daily mean over the cached days from `from_date` up to,
    /// not including, `to_date`.
    pub fn get_avg_mean_temp(&self, from_date: Date, to_date: Date) -> (r: Option<Ratio>)
        ensures
            pair_of(r) == average_of(self.cache(), from_date, to_date, TempField::Mean),
            r matches Some(q) ==> q.den > 0,
    {
        self.get_avg_temp(from_date, to_date, TempField::Mean)
    }

    /// The average daily maximum over the cached days from `from_date` up to,
    /// not including, `to_date`.
    pub fn get_avg_max_temp(&self, from_date: Date, to_date: Date) -> (r: Option<Ratio>)
        ensures
            pair_of(r) == average_of(self.cache(), from_date, to_date, TempField::Max),
            r matches Some(q) ==> q.den > 0,
    {
        self.get_avg_temp(from_date, to_date, TempField::Max)
    }

    /// Looks `date` up: an error for today or a later date, the cached value
    /// where there is one, and otherwise a request to ask the providers and
    /// record their reports with [`TempDataManager::record`].
    pub fn get_temp(&self, date: &Date) -> (r: Result<TempLookup, TempError>)
        ensures
            r == lookup(self.cache(), self.today(), *date),
    {
        check_past(date, &self.today)?;
        match self.cache.get(&date.julian_day) {
            Some(t) => Ok(TempLookup::Cached(*t)),
            None => Ok(TempLookup::Fetch),
        }
    }

    /// Records the providers' reports for `date`, combined, unless a value
    /// is already cached for it; returns the value now cached.
    pub fn record(&mut self, date: &Date, responses: &Vec<Option<Temp>>) -> (r: Result<
        Option<Temp>,
        TempError,
    >)
        ensures
            final(self).cache() == recorded(old(self).cache(), old(self).today(), *date, responses@),
            final(self).today() == old(self).today(),
            r == record_result(old(self).cache(), old(self).today(), *date, responses@),
    {
        check_past(date, &self.today)?;
        match self.cache.get(&date.julian_day) {
            Some(t) => Ok(*t),
            None => {
                let temp = combine_temps(responses);
                self.cache.insert(date.julian_day, temp);
                Ok(temp)
            },
        }
    }
}

} // verus!
