//! The clock's text: the local date and time, formatted by the `time` crate.
use vstd::prelude::*;

use crate::text::decimal;

verus! {

/// The date and time lines of the clock.
#[derive(Debug)]
pub struct DateTime {
    pub date: String,
    pub time: String,
}

impl DateTime {
    /// The two lines as one text: the date, a newline, the time.
    pub fn text(&self) -> (r: String)
        ensures
            r@ == self.date@ + "\n"@ + self.time@,
    {
        let mut r = self.date.clone();
        r.append("\n");
        r.append(self.time.as_str());
        r
    }
}

/// A local date and time of day, as plain values.
#[derive(Debug, Clone, Copy)]
pub struct LocalTime {
    pub year: i32,
    pub month: u8,
    pub day: u8,
    pub hour: u8,
    pub minute: u8,
    pub second: u8,
}

/// A leap year of the proleptic Gregorian calendar.
pub open spec fn is_leap_year(year: int) -> bool {
    year % 4 == 0 && (year % 100 != 0 || year % 400 == 0)
}

/// The number of days of month `month` (1 to 12) in `year`.
pub open spec fn days_in_month(year: int, month: int) -> int {
    if month == 2 {
        if is_leap_year(year) {
            29
        } else {
            28
        }
    } else if month == 4 || month == 6 || month == 9 || month == 11 {
        30
    } else {
        31
    }
}

/// A date that exists, with a year from -9999 to 9999.
pub open spec fn valid_date(year: i32, month: u8, day: u8) -> bool {
    &&& -9999 <= year <= 9999
    &&& 1 <= month <= 12
    &&& 1 <= day <= days_in_month(year as int, month as int)
}

/// A time of day that exists.
pub open spec fn valid_time(hour: u8, minute: u8, second: u8) -> bool {
    hour < 24 && minute < 60 && second < 60
}

/// `n` in decimal, padded with zeros on the left to at least `width` digits.
pub open spec fn padded(n: nat, width: nat) -> Seq<char> {
    let d = decimal(n);
    if d.len() >= width {
        d
    } else {
        Seq::new((width - d.len()) as nat, |i: int| '0') + d
    }
}

/// The date line for a year from 0 on: `YYYY/MM/DD`.
pub open spec fn date_text(year: nat, month: nat, day: nat) -> Seq<char> {
    padded(year, 4) + "/"@ + padded(month, 2) + "/"@ + padded(day, 2)
}

/// The time line: `HH:MM:SS`.
pub open spec fn time_text(hour: nat, minute: nat, second: nat) -> Seq<char> {
    padded(hour, 2) + ":"@ + padded(minute, 2) + ":"@ + padded(second, 2)
}

/// Relies on time's `Date::format` with the description `[year]/[month]/[day]`
/// (whose items default to zero padding: four digits for a year from 0 to 9999,
/// two for month and day) on the date that `Date::from_calendar_date` makes
/// (with `Month::try_from`). `None` exactly when that date does not exist: a
/// year outside -9999..=9999, a month outside 1..=12, or a day outside the month.
#[verifier::external_body]
fn format_date(year: i32, month: u8, day: u8) -> (r: Option<String>)
    ensures
        r is Some <==> valid_date(year, month, day),
        r matches Some(s) ==> (0 <= year ==> s@ == date_text(year as nat, month as nat, day as nat)),
{
    let month = time::Month::try_from(month).ok()?;
    let date = time::Date::from_calendar_date(year, month, day).ok()?;
    let items = time::format_description::parse_borrowed::<1>("[year]/[month]/[day]").ok()?;
    date.format(&items).ok()
}

/// Relies on time's `Time::format` with the description `[hour]:[minute]:[second]`
/// (each item two digits, zero-padded, the hour on the 24-hour clock) on the
/// time of day that `Time::from_hms` makes. `None` exactly when that time does
/// not exist: an hour above 23, or a minute or second above 59.
#[verifier::external_body]
fn format_time(hour: u8, minute: u8, second: u8) -> (r: Option<String>)
    ensures
        r is Some <==> valid_time(hour, minute, second),
        r matches Some(s) ==> s@ == time_text(hour as nat, minute as nat, second as nat),
{
    let time = time::Time::from_hms(hour, minute, second).ok()?;
    let items = time::format_description::parse_borrowed::<1>("[hour]:[minute]:[second]").ok()?;
    time.format(&items).ok()
}

/// The clock's date and time lines for `now`; `None` exactly when `now` is no
/// real date and time.
pub fn get_datetime(now: &LocalTime) -> (r: Option<DateTime>)
    ensures
        r is Some <==> valid_date(now.year, now.month, now.day) && valid_time(
            now.hour,
            now.minute,
            now.second,
        ),
        r matches Some(dt) ==> {
            &&& 0 <= now.year ==> dt.date@ == date_text(
                now.year as nat,
                now.month as nat,
                now.day as nat,
            )
            &&& dt.time@ == time_text(now.hour as nat, now.minute as nat, now.second as nat)
        },
{
    let date = format_date(now.year, now.month, now.day)?;
    let time = format_time(now.hour, now.minute, now.second)?;
    Some(DateTime { date, time })
}

} // verus!
