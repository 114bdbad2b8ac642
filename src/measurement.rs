//! Dated readings: meter readings or daily temperatures.
use vstd::prelude::*;
use crate::date::Date;
use vstd::seq_lib::to_multiset_insert;

verus! {

/// One reading: the amount used since the previous reading (or a
/// temperature), as a fixed-point integer.
#[derive(Clone, Copy, Debug, PartialEq, Eq, Structural)]
pub struct Measurement {
    pub date: Date,
    pub amount: i64,
}

impl Measurement {
    pub fn new(date: Date, amount: i64) -> (r: Measurement)
        ensures
            r.date == date,
            r.amount == amount,
    {
        Measurement { date, amount }
    }
}

/// Dates strictly increase along the series.
pub open spec fn strictly_increasing(s: Seq<Measurement>) -> bool {
    forall|i: int, j: int| 0 <= i < j < s.len() ==> s[i].date.day() < s[j].date.day()
}

/// Along a strictly increasing series, dates are at least as far apart as
/// their positions.
pub proof fn lemma_increasing_gap(s: Seq<Measurement>, i: int, j: int)
    requires
        strictly_increasing(s),
        0 <= i <= j < s.len(),
    ensures
        s[j].date.day() - s[i].date.day() >= j - i,
    decreases j - i,
{
    if i < j {
        lemma_increasing_gap(s, i, j - 1);
        assert(s[j - 1].date.day() < s[j].date.day());
    }
}

#[verifier::external_type_specification]
#[verifier::external_body]
pub struct ExParseError(time::error::Parse);

#[verifier::external_type_specification]
#[verifier::external_body]
pub struct ExCsvError(csv::Error);

/// Why a file of readings could not be read.
#[derive(Debug)]
pub enum ReadError {
    CsvError { err: csv::Error },
    DateParseError { err: time::error::Parse },
}

/// The Julian day of a date written `year-month-day`, where the text is one.
pub uninterp spec fn parsed_day(s: Seq<char>) -> Option<int>;

/// Relies on `time::Date::parse` with the description `[year]-[month]-[day]`,
/// which gives a date exactly where the text is one in that form, and on
/// `time::Date::to_julian_day`. The description is a fixed valid text, so
/// parsing it cannot fail.
#[verifier::external_body]
fn parse_date(s: &str) -> (r: Result<i32, time::error::Parse>)
    ensures
        match r {
            Ok(j) => parsed_day(s@) == Some(j as int),
            Err(_) => parsed_day(s@) is None,
        },
{
    let format = time::format_description::parse("[year]-[month]-[day]").unwrap();
    time::Date::parse(s, &format).map(|d| d.to_julian_day())
}

/// A series of meter readings of one utility.
#[derive(Debug)]
pub struct Measurements {
    /// The readings, by date.
    pub data: Vec<Measurement>,
    /// The kind of utility measured (electricity, gas).
    pub typ: String,
    /// The unit of the amounts.
    pub unit: String,
}

/// Dates never decrease along the series.
pub open spec fn ordered_by_date(s: Seq<Measurement>) -> bool {
    forall|i: int, j: int| 0 <= i < j < s.len() ==> s[i].date.day() <= s[j].date.day()
}

/// The reading a row stands for, where its date parses.
pub open spec fn row_reading(row: (String, u16)) -> Measurement {
    Measurement {
        date: Date { julian_day: parsed_day(row.0@)->Some_0 as i32 },
        amount: row.1 as i64,
    }
}

pub open spec fn rows_readings(rows: Seq<(String, u16)>) -> Seq<Measurement> {
    rows.map_values(|row: (String, u16)| row_reading(row))
}

/// Adds `m` to a series ordered by date, after the readings of its date.
fn insert_by_date(v: &mut Vec<Measurement>, m: Measurement)
    requires
        ordered_by_date(old(v)@),
    ensures
        ordered_by_date(final(v)@),
        final(v)@.to_multiset() == old(v)@.to_multiset().insert(m),
{
    let ghost s = v@;
    let mut i: usize = v.len();
    while i > 0 && v[i - 1].date.julian_day > m.date.julian_day
        invariant
            v@ == s,
            i <= s.len(),
            forall|j: int| i <= j < s.len() ==> #[trigger] s[j].date.day() > m.date.day(),
        decreases i,
    {
        i = i - 1;
    }
    v.insert(i, m);
    proof {
        s.insert_ensures(i as int, m);
        to_multiset_insert(s, i as int, m);
        let t = v@;
        assert forall|a: int, b: int| 0 <= a < b < t.len() implies t[a].date.day() <= t[b].date.day() by {
            if b < i {
            } else if b == i {
                if a < i - 1 {
                    assert(s[a].date.day() <= s[i - 1].date.day());
                }
            } else if a < i {
                assert(t[b] == s[b - 1]);
            } else if a == i {
                assert(t[b] == s[b - 1]);
            } else {
                assert(t[a] == s[a - 1]);
                assert(t[b] == s[b - 1]);
            }
        }
    }
}

impl Measurements {
    /// The readings of rows of a date (`year-month-day`) and an amount, put in
    /// order of date; the error of the first date that does not parse.
    pub fn from_records(rows: Vec<(String, u16)>, typ: String, unit: String) -> (r: Result<Measurements, ReadError>)
        ensures
            r is Ok <==> forall|i: int| 0 <= i < rows@.len() ==> (#[trigger] parsed_day(rows@[i].0@)) is Some,
            r matches Ok(ms) ==> {
                &&& ordered_by_date(ms.data@)
                &&& ms.data@.to_multiset() == rows_readings(rows@).to_multiset()
                &&& ms.typ == typ
                &&& ms.unit == unit
            },
    {
        let mut records: Vec<Measurement> = Vec::new();
        let mut i: usize = 0;
        proof {
            assert(records@ =~= rows_readings(rows@.subrange(0, 0)));
        }
        while i < rows.len()
            invariant
                i <= rows@.len(),
                ordered_by_date(records@),
                records@.to_multiset() == rows_readings(rows@.subrange(0, i as int)).to_multiset(),
                forall|j: int| 0 <= j < i ==> (#[trigger] parsed_day(rows@[j].0@)) is Some,
            decreases rows@.len() - i,
        {
            let row = &rows[i];
            match parse_date(row.0.as_str()) {
                Ok(j) => {
                    let m = Measurement { date: Date { julian_day: j }, amount: row.1 as i64 };
                    proof {
                        assert(m == row_reading(rows@[i as int]));
                        assert(rows_readings(rows@.subrange(0, i + 1)) =~= rows_readings(rows@.subrange(0, i as int)).push(m));
                        vstd::seq_lib::to_multiset_build(rows_readings(rows@.subrange(0, i as int)), m);
                    }
                    insert_by_date(&mut records, m);
                },
                Err(err) => {
                    return Err(ReadError::DateParseError { err });
                },
            }
            i = i + 1;
        }
        proof {
            assert(rows@.subrange(0, rows@.len() as int) =~= rows@);
        }
        Ok(Measurements { data: records, typ, unit })
    }
}

} // verus!
