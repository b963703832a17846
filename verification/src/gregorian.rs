//! The proleptic Gregorian calendar, as chrono computes it.
//!
//! A day is named by its number: the count of days in which January 1 of the
//! year 1 is day 1. Everything the calendar says of a day is asked of chrono
//! here, and nowhere else. What chrono answers is not proved: each function
//! below states what is claimed of it.

use vstd::prelude::*;

verus! {

/// The first year that has dates.
pub const MIN_YEAR: i32 = -262144;

/// The last year that has dates.
pub const MAX_YEAR: i32 = 262143;

/// The number of the first day: January 1 of `MIN_YEAR`.
pub const MIN_DAY: i32 = -95746495;

/// The number of the last day: December 31 of `MAX_YEAR`.
pub const MAX_DAY: i32 = 95745764;

/// Whether a year has a February 29.
pub open spec fn is_leap_year(year: int) -> bool {
    year % 4 == 0 && (year % 100 != 0 || year % 400 == 0)
}

/// The number of days of a month.
pub open spec fn days_in_month(year: int, month: int) -> int {
    if month == 2 {
        if is_leap_year(year) {
            29
        } else {
            28
        }
    } else if month == 4 || month == 6 || month == 9 || month == 11 {
        30
    } else {
        31
    }
}

/// Whether year, month and day name a day of the calendar.
pub open spec fn is_calendar_date(year: int, month: int, day: int) -> bool {
    &&& MIN_YEAR <= year <= MAX_YEAR
    &&& 1 <= month <= 12
    &&& 1 <= day <= days_in_month(year, month)
}

/// The number of days of the years from the year 1 up to, not including,
/// `year`; for a year before the year 1, less the days of the years from it
/// up to the year 1.
pub open spec fn days_before_year(year: int) -> int {
    365 * (year - 1) + (year - 1) / 4 - (year - 1) / 100 + (year - 1) / 400
}

/// The number of days of the months of `year` before `month`.
pub open spec fn days_before_month(year: int, month: int) -> int
    decreases month,
{
    if month <= 1 {
        0
    } else {
        days_before_month(year, month - 1) + days_in_month(year, month - 1)
    }
}

/// The number of the day that year, month and day name: the days since
/// January 1 of the year 1, which is day 1.
pub open spec fn civil_day(year: int, month: int, day: int) -> int {
    days_before_year(year) + days_before_month(year, month) + day
}

/// The days before a month are those of the months before it: 31 before
/// February, and so on up to 334 before December, and one more from March on
/// in a leap year.
pub proof fn lemma_days_before_month(year: int, month: int)
    requires
        1 <= month <= 12,
    ensures
        days_before_month(year, month) == (if month == 1 {
            0int
        } else if month == 2 {
            31
        } else if month == 3 {
            59
        } else if month == 4 {
            90
        } else if month == 5 {
            120
        } else if month == 6 {
            151
        } else if month == 7 {
            181
        } else if month == 8 {
            212
        } else if month == 9 {
            243
        } else if month == 10 {
            273
        } else if month == 11 {
            304
        } else {
            334
        }) + (if month > 2 && is_leap_year(year) {
            1int
        } else {
            0int
        }),
{
    reveal_with_fuel(days_before_month, 13);
}

/// A year has 365 days, and 366 where it is a leap year: so far is January 1
/// of the next year after its own.
pub proof fn lemma_year_length(year: int)
    ensures
        civil_day(year + 1, 1, 1) - civil_day(year, 1, 1) == (if is_leap_year(year) {
            366int
        } else {
            365int
        }),
{
    reveal_with_fuel(days_before_month, 2);
}

/// The days of the calendar are numbered from `MIN_DAY` to `MAX_DAY`.
pub proof fn lemma_civil_day_bounds(year: int, month: int, day: int)
    requires
        is_calendar_date(year, month, day),
    ensures
        MIN_DAY <= civil_day(year, month, day) <= MAX_DAY,
{
    lemma_days_before_month(year, month);
}

/// The month of a day, from 1 for January.
pub uninterp spec fn month_number(day: int) -> int;

/// The day of the month of a day, from 1.
pub uninterp spec fn day_of_month(day: int) -> int;

/// The ISO week of a day, from 1: weeks start on Monday, and week 1 is the
/// week of the year's first Thursday.
pub uninterp spec fn iso_week(day: int) -> int;

/// The day of the week of a day, from 0 for Monday.
pub uninterp spec fn weekday_number(day: int) -> int;

/// The English name of a month.
pub open spec fn long_month_name(month: int) -> Seq<char> {
    if month == 1 {
        "January"@
    } else if month == 2 {
        "February"@
    } else if month == 3 {
        "March"@
    } else if month == 4 {
        "April"@
    } else if month == 5 {
        "May"@
    } else if month == 6 {
        "June"@
    } else if month == 7 {
        "July"@
    } else if month == 8 {
        "August"@
    } else if month == 9 {
        "September"@
    } else if month == 10 {
        "October"@
    } else if month == 11 {
        "November"@
    } else {
        "December"@
    }
}

/// `NaiveDate::from_ymd_opt`, then `Datelike::num_days_from_ce` of the date.
/// Claimed: there is a date exactly for the days of the calendar; its number
/// is `civil_day`, the count of days since January 1 of the year 1; and the
/// day with that number has the month and the day of the month it was made
/// from.
#[verifier::external_body]
pub(crate) fn day_from_civil(year: i32, month: u32, day: u32) -> (number: Option<i32>)
    ensures
        number is Some <==> is_calendar_date(year as int, month as int, day as int),
        number matches Some(n) ==> n == civil_day(year as int, month as int, day as int)
            && month_number(n as int) == month && day_of_month(n as int) == day,
{
    match chrono::NaiveDate::from_ymd_opt(year, month, day) {
        Some(date) => Some(chrono::Datelike::num_days_from_ce(&date)),
        None => None,
    }
}

/// `Datelike::month` of `NaiveDate::from_num_days_from_ce`. Claimed: the
/// result is `month_number`, between 1 and 12.
#[verifier::external_body]
pub(crate) fn month_of_day(day: i32) -> (month: u32)
    requires
        MIN_DAY <= day <= MAX_DAY,
    ensures
        month == month_number(day as int),
        1 <= month <= 12,
{
    chrono::Datelike::month(&chrono::NaiveDate::from_num_days_from_ce(day))
}

/// `Datelike::day` of `NaiveDate::from_num_days_from_ce`. Claimed: the
/// result is `day_of_month`, between 1 and 31.
#[verifier::external_body]
pub(crate) fn day_of_month_of_day(day: i32) -> (of_month: u32)
    requires
        MIN_DAY <= day <= MAX_DAY,
    ensures
        of_month == day_of_month(day as int),
        1 <= of_month <= 31,
{
    chrono::Datelike::day(&chrono::NaiveDate::from_num_days_from_ce(day))
}

/// The week of `Datelike::isoweekdate` of `NaiveDate::from_num_days_from_ce`.
/// Claimed: the result is `iso_week`, between 1 and 53.
#[verifier::external_body]
pub(crate) fn iso_week_of_day(day: i32) -> (week: u32)
    requires
        MIN_DAY <= day <= MAX_DAY,
    ensures
        week == iso_week(day as int),
        1 <= week <= 53,
{
    chrono::Datelike::isoweekdate(&chrono::NaiveDate::from_num_days_from_ce(day)).1
}

/// `Weekday::num_days_from_monday` of `Datelike::weekday` of
/// `NaiveDate::from_num_days_from_ce`. Claimed: the result is
/// `weekday_number`, between 0 and 6.
#[verifier::external_body]
pub(crate) fn weekday_of_day(day: i32) -> (weekday: u32)
    requires
        MIN_DAY <= day <= MAX_DAY,
    ensures
        weekday == weekday_number(day as int),
        weekday <= 6,
{
    chrono::Datelike::weekday(&chrono::NaiveDate::from_num_days_from_ce(day)).num_days_from_monday()
}

/// `NaiveDate::format` with `%B`, written out, of
/// `NaiveDate::from_num_days_from_ce`. Claimed: the result is the English
/// name of the day's month.
#[verifier::external_body]
pub(crate) fn month_name_of_day(day: i32) -> (name: String)
    requires
        MIN_DAY <= day <= MAX_DAY,
    ensures
        name@ == long_month_name(month_number(day as int)),
{
    chrono::NaiveDate::from_num_days_from_ce(day).format("%B").to_string()
}

} // verus!
