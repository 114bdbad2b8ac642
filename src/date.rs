//! Calendar dates, held as Julian day numbers.
use vstd::prelude::*;

verus! {

/// A calendar date of the proleptic Gregorian calendar, as its Julian day
/// number: consecutive dates have consecutive numbers.
#[derive(Clone, Copy, Debug, PartialEq, Eq, Structural, Hash, PartialOrd, Ord)]
pub struct Date {
    pub julian_day: i32,
}

/// The Julian day number of a valid calendar date.
pub uninterp spec fn julian_day_of(year: int, month: int, day: int) -> int;

pub open spec fn is_leap_year(year: int) -> bool {
    year % 4 == 0 && (year % 100 != 0 || year % 400 == 0)
}

pub open spec fn days_in_month(year: int, month: int) -> int {
    if month == 2 {
        if is_leap_year(year) { 29 } else { 28 }
    } else if month == 4 || month == 6 || month == 9 || month == 11 {
        30
    } else {
        31
    }
}

/// The calendar dates that can be represented: years -9999 to 9999.
pub open spec fn is_valid_calendar_date(year: int, month: int, day: int) -> bool {
    &&& -9999 <= year <= 9999
    &&& 1 <= month <= 12
    &&& 1 <= day <= days_in_month(year, month)
}

/// Relies on `time::Month::try_from` and `time::Date::from_calendar_date`, which
/// accept exactly the valid dates, and on `time::Date::to_julian_day`.
#[verifier::external_body]
fn julian_day_from_calendar(year: i32, month: u8, day: u8) -> (r: Option<i32>)
    ensures
        r.is_some() == is_valid_calendar_date(year as int, month as int, day as int),
        r matches Some(j) ==> j as int == julian_day_of(year as int, month as int, day as int),
{
    let m = time::Month::try_from(month).ok()?;
    time::Date::from_calendar_date(year, m, day).ok().map(|d| d.to_julian_day())
}

impl Date {
    pub open spec fn day(self) -> int {
        self.julian_day as int
    }

    /// The date with the given year, month (1 to 12) and day of the month, or
    /// `None` where no such date exists.
    pub fn from_calendar_date(year: i32, month: u8, day: u8) -> (r: Option<Date>)
        ensures
            r.is_some() == is_valid_calendar_date(year as int, month as int, day as int),
            r matches Some(d) ==> d.day() == julian_day_of(year as int, month as int, day as int),
    {
        match julian_day_from_calendar(year, month, day) {
            Some(j) => Some(Date { julian_day: j }),
            None => None,
        }
    }

    /// The number of days from `self` to `other` (negative where `other` is earlier).
    pub fn days_until(&self, other: &Date) -> (r: i64)
        ensures
            r == other.day() - self.day(),
    {
        other.julian_day as i64 - self.julian_day as i64
    }
}

} // verus!
