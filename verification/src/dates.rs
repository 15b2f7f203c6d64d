//! Calendar dates as Unix time.

use vstd::prelude::*;

verus! {

/// The year has a leap day.
pub open spec fn is_leap(year: int) -> bool {
    year % 4 == 0 && (year % 100 != 0 || year % 400 == 0)
}

/// The days of a year.
pub open spec fn year_len(year: int) -> int {
    if is_leap(year) {
        366
    } else {
        365
    }
}

/// The days of a month.
pub open spec fn month_len(year: int, month: int) -> int {
    if month == 2 {
        if is_leap(year) {
            29
        } else {
            28
        }
    } else if month == 4 || month == 6 || month == 9 || month == 11 {
        30
    } else {
        31
    }
}

/// The days from the start of 1970 to the start of the year.
pub open spec fn days_to_year(year: int) -> int
    decreases
            if year >= 1970 {
                year - 1970
            } else {
                1970 - year
            },
{
    if year > 1970 {
        days_to_year(year - 1) + year_len(year - 1)
    } else if year < 1970 {
        days_to_year(year + 1) - year_len(year)
    } else {
        0
    }
}

/// The days from the start of the year to the start of the month.
pub open spec fn days_to_month(year: int, month: int) -> int
    decreases month,
{
    if month <= 1 {
        0
    } else {
        days_to_month(year, month - 1) + month_len(year, month - 1)
    }
}

/// The days from the start of 1970 to a date. A day past the end of its month runs on
/// into the next.
pub open spec fn day_number(year: int, month: int, day: int) -> int {
    days_to_year(year) + days_to_month(year, month) + day - 1
}

/// The seconds from the start of 1970 to a moment, UTC.
pub open spec fn unix_time(year: int, month: int, day: int, hour: int, min: int, sec: int) -> int {
    day_number(year, month, day) * 86400 + hour * 3600 + min * 60 + sec
}

/// How many of the years up to and including this one have a leap day (from year one).
pub open spec fn leap_days(year: int) -> int {
    year / 4 - year / 100 + year / 400
}

/// A moment of the centuries around now fits in an `i64`.
pub proof fn lemma_unix_time_fits(year: int, month: int, day: int, hour: int, min: int, sec: int)
    requires
        1 <= year <= 9999,
        1 <= month <= 12,
        1 <= day <= 31,
        0 <= hour < 24,
        0 <= min < 60,
        0 <= sec < 60,
    ensures
        i64::MIN <= unix_time(year, month, day, hour, min, sec) <= i64::MAX,
{
    lemma_days_to_year(year);
    lemma_days_to_month(year);
}

proof fn lemma_leap_days(year: int)
    ensures
        leap_days(year) - leap_days(year - 1) == if is_leap(year) {
            1int
        } else {
            0
        },
{
}

proof fn lemma_days_to_year(year: int)
    ensures
        days_to_year(year) == 365 * (year - 1970) + leap_days(year - 1) - leap_days(1969),
    decreases
            if year >= 1970 {
                year - 1970
            } else {
                1970 - year
            },
{
    if year > 1970 {
        lemma_days_to_year(year - 1);
        lemma_leap_days(year - 1);
    } else if year < 1970 {
        lemma_days_to_year(year + 1);
        lemma_leap_days(year);
    }
}

proof fn lemma_days_to_month(year: int)
    ensures
        ({
            let l = if is_leap(year) {
                1int
            } else {
                0
            };
            &&& days_to_month(year, 1) == 0
            &&& days_to_month(year, 2) == 31
            &&& days_to_month(year, 3) == 59 + l
            &&& days_to_month(year, 4) == 90 + l
            &&& days_to_month(year, 5) == 120 + l
            &&& days_to_month(year, 6) == 151 + l
            &&& days_to_month(year, 7) == 181 + l
            &&& days_to_month(year, 8) == 212 + l
            &&& days_to_month(year, 9) == 243 + l
            &&& days_to_month(year, 10) == 273 + l
            &&& days_to_month(year, 11) == 304 + l
            &&& days_to_month(year, 12) == 334 + l
            &&& days_to_month(year, 13) == 365 + l
        }),
{
    reveal_with_fuel(days_to_month, 14);
}

/// A date and time to Unix seconds, UTC, however far away.
pub fn civil_seconds(year: i64, month: i64, day: i64, hour: i64, min: i64, sec: i64) -> (ts: i128)
    requires
        1 <= month <= 12,
    ensures
        ts == unix_time(
            year as int,
            month as int,
            day as int,
            hour as int,
            min as int,
            sec as int,
        ),
{
    // The year counted from March, so that the leap day comes last.
    let y: i128 = if month <= 2 {
        year as i128 - 1
    } else {
        year as i128
    };
    let era: i128 = if y >= 0 {
        y / 400
    } else {
        -((399 - y) / 400)
    };
    let yoe: i128 = y - era * 400;
    let mp: i128 = if month > 2 {
        month as i128 - 3
    } else {
        month as i128 + 9
    };
    let doy: i128 = (153 * mp + 2) / 5 + day as i128 - 1;
    let doe: i128 = yoe * 365 + yoe / 4 - yoe / 100 + doy;
    let days: i128 = era * 146097 + doe - 719468;
    proof {
        lemma_days_to_year(year as int);
        lemma_days_to_month(year as int);
        lemma_leap_days(year as int);
        lemma_era(y as int, era as int, yoe as int);
        assert(days == 365 * y + leap_days(y as int) + doy - 719468);
        assert(days == day_number(year as int, month as int, day as int));
    }
    days * 86400 + hour as i128 * 3600 + min as i128 * 60 + sec as i128
}

/// A date and time to Unix seconds, UTC.
pub fn civil_to_unix(year: i64, month: i64, day: i64, hour: i64, min: i64, sec: i64) -> (ts: i64)
    requires
        1 <= month <= 12,
        i64::MIN <= unix_time(
            year as int,
            month as int,
            day as int,
            hour as int,
            min as int,
            sec as int,
        ) <= i64::MAX,
    ensures
        ts == unix_time(
            year as int,
            month as int,
            day as int,
            hour as int,
            min as int,
            sec as int,
        ),
{
    civil_seconds(year, month, day, hour, min, sec) as i64
}

/// Counting by eras of 400 years counts the same days.
proof fn lemma_era(y: int, era: int, yoe: int)
    requires
        y == era * 400 + yoe,
        0 <= yoe < 400,
    ensures
        era * 146097 + yoe * 365 + yoe / 4 - yoe / 100 == 365 * y + leap_days(y),
{
    assert(y / 4 == era * 100 + yoe / 4);
    assert(y / 100 == era * 4 + yoe / 100);
    assert(y / 400 == era);
}

/// The date exists.
pub open spec fn is_date(year: int, month: int, day: int) -> bool {
    1 <= month <= 12 && 1 <= day <= month_len(year, month)
}

pub proof fn lemma_year_step(year: int)
    ensures
        days_to_year(year + 1) == days_to_year(year) + year_len(year),
{
    lemma_days_to_year(year);
    lemma_days_to_year(year + 1);
    lemma_leap_days(year);
}

proof fn lemma_years_ascend(a: int, b: int)
    requires
        a <= b,
    ensures
        days_to_year(a) + 365 * (b - a) <= days_to_year(b),
    decreases b - a,
{
    if a < b {
        lemma_years_ascend(a, b - 1);
        lemma_year_step(b - 1);
    }
}

proof fn lemma_months_ascend(year: int, a: int, b: int)
    requires
        1 <= a <= b,
    ensures
        days_to_month(year, a) + 28 * (b - a) <= days_to_month(year, b),
        a < b ==> days_to_month(year, a) + month_len(year, a) <= days_to_month(year, b),
    decreases b - a,
{
    if a < b {
        lemma_months_ascend(year, a, b - 1);
    }
}

/// A date lies in its year.
proof fn lemma_in_year(year: int, month: int, day: int)
    requires
        is_date(year, month, day),
    ensures
        days_to_year(year) <= day_number(year, month, day) < days_to_year(year + 1),
{
    lemma_days_to_month(year);
    lemma_months_ascend(year, 1, month);
    lemma_months_ascend(year, month, 13);
    lemma_year_step(year);
}

/// **Dates sort as their moments do.** A later date has the larger day number, so the
/// timeline's order is the calendar's.
pub proof fn law_dates_are_ordered(y1: int, m1: int, d1: int, y2: int, m2: int, d2: int)
    requires
        is_date(y1, m1, d1),
        is_date(y2, m2, d2),
        y1 < y2 || (y1 == y2 && (m1 < m2 || (m1 == m2 && d1 < d2))),
    ensures
        day_number(y1, m1, d1) < day_number(y2, m2, d2),
{
    if y1 < y2 {
        lemma_in_year(y1, m1, d1);
        lemma_in_year(y2, m2, d2);
        lemma_years_ascend(y1 + 1, y2);
    } else if m1 < m2 {
        lemma_months_ascend(y1, m1, m2);
    }
}

/// The date of a day.
#[derive(Clone, Copy, PartialEq, Eq, Structural, Debug)]
pub struct Date {
    pub year: i64,
    pub month: i64,
    pub day: i64,
}

/// How many days before 1970 or after it [`date_of_day`] counts.
pub const DAY_LIMIT: i64 = 200_000_000_000_000;

/// The date of a day, counted from the start of 1970.
pub fn date_of_day(days: i64) -> (date: Date)
    requires
        -DAY_LIMIT <= days <= DAY_LIMIT,
    ensures
        is_date(date.year as int, date.month as int, date.day as int),
        day_number(date.year as int, date.month as int, date.day as int) == days,
{
    let era: i64 = if days >= 0 {
        days / 146097
    } else {
        -((146096 - days) / 146097)
    };
    let rest: i64 = days - era * 146097;
    let mut year: i64 = 1970 + era * 400;
    let mut left: i64 = rest;
    proof {
        lemma_days_to_year(year as int);
        let e = era as int;
        assert(leap_days(1969 + e * 400) == leap_days(1969) + e * 97) by {
            assert((1969 + e * 400) / 4 == 492 + e * 100);
            assert((1969 + e * 400) / 100 == 19 + e * 4);
            assert((1969 + e * 400) / 400 == 4 + e);
        }
        assert(days_to_year(year as int) == e * 146097);
    }
    let ghost start = year as int;
    loop
        invariant
            -DAY_LIMIT <= days <= DAY_LIMIT,
            start == 1970 + era * 400,
            -2_000_000_000_000 <= era <= 2_000_000_000_000,
            start <= year,
            0 <= left <= 146096,
            365 * (year - start) + left <= 146096 ,
            days == days_to_year(year as int) + left,
        ensures
            days == days_to_year(year as int) + left,
            0 <= left < year_len(year as int),
        decreases left,
    {
        let leap = has_leap_day(year);
        let len: i64 = if leap {
            366
        } else {
            365
        };
        if left < len {
            break;
        }
        proof {
            lemma_year_step(year as int);
        }
        left = left - len;
        year = year + 1;
    }
    proof {
        lemma_days_to_month(year as int);
    }
    let mut month: i64 = 1;
    while month < 12 && left >= length_of_month(year, month)
        invariant
            1 <= month <= 12,
            0 <= left,
            days == days_to_year(year as int) + days_to_month(year as int, month as int) + left,
            left < days_to_month(year as int, 13) - days_to_month(year as int, month as int),
            days_to_month(year as int, 13) == days_to_month(year as int, 12) + 31,
        decreases 12 - month,
    {
        left = left - length_of_month(year, month);
        month = month + 1;
    }
    Date { year, month, day: left + 1 }
}

fn has_leap_day(year: i64) -> (r: bool)
    ensures
        r == is_leap(year as int),
{
    // Shifted so that no operand is negative; the pattern repeats every 400 years.
    let y: i128 = (year as i128 + 0x8000_0000_0000_0000 + 192) % 400;
    proof {
        let s = year as int + 0x8000_0000_0000_0000 + 192;
        assert(s % 400 == y);
        assert(0x8000_0000_0000_0000 + 192 == 400 * 23058430092136940);
        assert(year as int % 400 == y);
        assert(year as int % 4 == y as int % 4);
        assert(year as int % 100 == y as int % 100);
    }
    y % 4 == 0 && (y % 100 != 0 || y == 0)
}

fn length_of_month(year: i64, month: i64) -> (n: i64)
    ensures
        n == month_len(year as int, month as int),
{
    if month == 2 {
        if has_leap_day(year) {
            29
        } else {
            28
        }
    } else if month == 4 || month == 6 || month == 9 || month == 11 {
        30
    } else {
        31
    }
}

/// The day a moment falls on.
pub open spec fn day_of(ts: int) -> int {
    ts / 86400
}

/// The date of a moment, UTC.
pub fn date_of(ts: i64) -> (date: Date)
    ensures
        is_date(date.year as int, date.month as int, date.day as int),
        day_number(date.year as int, date.month as int, date.day as int) == day_of(ts as int),
{
    let days: i128 = if ts >= 0 {
        ts as i128 / 86400
    } else {
        -((86399 - ts as i128) / 86400)
    };
    assert(days == day_of(ts as int));
    date_of_day(days as i64)
}

/// **Dates read back.** The date of a moment is the date the moment was made of.
pub proof fn law_dates_read_back(y: int, m: int, d: int, h: int, min: int, sec: int, date: Date)
    requires
        is_date(y, m, d),
        0 <= h < 24,
        0 <= min < 60,
        0 <= sec < 60,
        is_date(date.year as int, date.month as int, date.day as int),
        day_number(date.year as int, date.month as int, date.day as int) == day_of(
            unix_time(y, m, d, h, min, sec),
        ),
    ensures
        date.year == y && date.month == m && date.day == d,
{
    let n = day_number(y, m, d);
    assert(day_of(unix_time(y, m, d, h, min, sec)) == n);
    let (y2, m2, d2) = (date.year as int, date.month as int, date.day as int);
    if y != y2 || m != m2 || d != d2 {
        if y < y2 || (y == y2 && (m < m2 || (m == m2 && d < d2))) {
            law_dates_are_ordered(y, m, d, y2, m2, d2);
        } else {
            law_dates_are_ordered(y2, m2, d2, y, m, d);
        }
    }
}

} // verus!
