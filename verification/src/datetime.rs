//! Calendar dates with a time of day, as the export format writes them.
//!
//! A [`DateTime`] holds its six components as plain numbers. Whether a date
//! exists in the calendar, whether a time of day exists, and what the clock
//! shows some hours later are asked of the `time` crate.

use vstd::prelude::*;

verus! {

/// The proleptic Gregorian leap-year rule.
pub open spec fn is_leap_year(year: int) -> bool {
    year % 4 == 0 && (year % 100 != 0 || year % 400 == 0)
}

/// Number of days of `month` (1 to 12) in `year`.
pub open spec fn days_in_month(year: int, month: int) -> int {
    if month == 2 {
        if is_leap_year(year) {
            29
        } else {
            28
        }
    } else if month == 4 || month == 6 || month == 9 || month == 11 {
        30
    } else {
        31
    }
}

/// The day `day` of month `month` of year `year` exists, and the year has at
/// most four digits.
pub open spec fn is_calendar_date(year: int, month: int, day: int) -> bool {
    &&& -9999 <= year <= 9999
    &&& 1 <= month <= 12
    &&& 1 <= day <= days_in_month(year, month)
}

/// `hour:minute:second` is a time of day on a 24-hour clock.
pub open spec fn is_clock_time(hour: int, minute: int, second: int) -> bool {
    &&& 0 <= hour < 24
    &&& 0 <= minute < 60
    &&& 0 <= second < 60
}

/// A date of the proleptic Gregorian calendar with a time of day, to the
/// second.
#[derive(Debug, Clone, Copy, PartialEq, Eq, Structural)]
pub struct DateTime {
    pub year: i32,
    pub month: u8,
    pub day: u8,
    pub hour: u8,
    pub minute: u8,
    pub second: u8,
}

/// Calls `time::Month::try_from` on the number of a month.
///
/// Trusted: the conversion succeeds for the numbers 1 to 12 and for no others.
#[verifier::external_body]
fn month_exists(month: u8) -> (exists: bool)
    ensures
        exists == (1 <= month <= 12),
{
    time::Month::try_from(month).is_ok()
}

/// Calls `time::Date::from_calendar_date`, handing it the month as a
/// `time::Month`.
///
/// Trusted: the constructor succeeds exactly when the year lies within -9999
/// to 9999 (the crate's range without its `large-dates` feature) and the day
/// lies within 1 and the length of that month in that year, by the Gregorian
/// leap-year rule.
#[verifier::external_body]
fn calendar_date_exists(year: i32, month: u8, day: u8) -> (exists: bool)
    requires
        1 <= month <= 12,
    ensures
        exists == is_calendar_date(year as int, month as int, day as int),
{
    match time::Month::try_from(month) {
        Ok(m) => time::Date::from_calendar_date(year, m, day).is_ok(),
        Err(_) => false,
    }
}

/// Calls `time::Time::from_hms`.
///
/// Trusted: it succeeds exactly when the hour is below 24 and the minute and
/// the second are below 60.
#[verifier::external_body]
fn clock_time_exists(hour: u8, minute: u8, second: u8) -> (exists: bool)
    ensures
        exists == is_clock_time(hour as int, minute as int, second as int),
{
    time::Time::from_hms(hour, minute, second).is_ok()
}

/// Adds `time::Duration::hours(hours)` to the `time::Time` made of the three
/// components, with the crate's `+`, and reads the components of the sum.
///
/// Trusted: adding whole hours to a time of day leaves minute and second alone
/// and moves the hour forward on the 24-hour dial, passing midnight without
/// failing.
#[verifier::external_body]
fn clock_time_plus_hours(hour: u8, minute: u8, second: u8, hours: u8) -> (sum: (u8, u8, u8))
    requires
        is_clock_time(hour as int, minute as int, second as int),
        hours < 24,
    ensures
        sum.0 == (hour + hours) % 24,
        sum.1 == minute,
        sum.2 == second,
{
    let start = time::Time::from_hms(hour, minute, second).unwrap();
    let end = start + time::Duration::hours(i64::from(hours));
    (end.hour(), end.minute(), end.second())
}

impl DateTime {
    /// The date exists in the calendar and the time exists on the clock.
    pub open spec fn is_valid(self) -> bool {
        &&& is_calendar_date(self.year as int, self.month as int, self.day as int)
        &&& is_clock_time(self.hour as int, self.minute as int, self.second as int)
    }

    /// The value that [`DateTime::new`] returns for the six components.
    pub open spec fn spec_new(
        year: i32,
        month: u8,
        day: u8,
        hour: u8,
        minute: u8,
        second: u8,
    ) -> Option<DateTime> {
        let dt = DateTime { year, month, day, hour, minute, second };
        if dt.is_valid() {
            Some(dt)
        } else {
            None
        }
    }

    /// The same date with the clock moved forward by `hours`, staying on the
    /// same day when the clock passes midnight.
    pub open spec fn spec_plus_hours(self, hours: u8) -> DateTime {
        DateTime { hour: ((self.hour + hours) % 24) as u8, ..self }
    }

    /// Builds a date and time from its components, or `None` when the date or
    /// the time of day does not exist.
    pub fn new(year: i32, month: u8, day: u8, hour: u8, minute: u8, second: u8) -> (r: Option<
        DateTime,
    >)
        ensures
            r == Self::spec_new(year, month, day, hour, minute, second),
    {
        if month_exists(month) && calendar_date_exists(year, month, day) && clock_time_exists(
            hour,
            minute,
            second,
        ) {
            Some(DateTime { year, month, day, hour, minute, second })
        } else {
            None
        }
    }

    /// Moves the clock forward by `hours`, wrapping at midnight; the date is
    /// left as it is.
    pub fn plus_hours(self, hours: u8) -> (r: DateTime)
        requires
            self.is_valid(),
            hours < 24,
        ensures
            r == self.spec_plus_hours(hours),
            r.is_valid(),
    {
        let (hour, minute, second) = clock_time_plus_hours(
            self.hour,
            self.minute,
            self.second,
            hours,
        );
        DateTime { year: self.year, month: self.month, day: self.day, hour, minute, second }
    }
}

} // verus!
