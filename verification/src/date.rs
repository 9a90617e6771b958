//! Gregorian calendar arithmetic at day granularity.
//!
//! Dates are converted to and from epoch seconds by accumulating whole days
//! from the epoch year 1970, at 86400 seconds per day, with no timezone
//! offset.  The spec model counts days with recursive functions over `int`;
//! the executable functions are proved against it.

use vstd::prelude::*;

verus! {

/// Seconds in one day.
pub const SECONDS_PER_DAY: u64 = 86400;

/// Gregorian leap-year rule: divisible by 4, except centuries not divisible
/// by 400.
pub open spec fn leap(y: int) -> bool {
    y % 4 == 0 && (y % 100 != 0 || y % 400 == 0)
}

/// Days in the year `y`.
pub open spec fn days_of_year(y: int) -> int {
    if leap(y) {
        366
    } else {
        365
    }
}

/// Days in month `m` of year `y`.  Total: months outside 1..=12 get the
/// default arm, as the executable function does.
pub open spec fn days_of_month(y: int, m: int) -> int {
    if m == 4 || m == 6 || m == 9 || m == 11 {
        30
    } else if m == 2 {
        if leap(y) {
            29
        } else {
            28
        }
    } else {
        31
    }
}

/// Days in all years from 1970 (inclusive) up to `y` (exclusive).
pub open spec fn days_before_year(y: int) -> int
    decreases y - 1970,
{
    if y <= 1970 {
        0
    } else {
        days_before_year(y - 1) + days_of_year(y - 1)
    }
}

/// Days in the months of year `y` before month `m`.
pub open spec fn days_before_month(y: int, m: int) -> int
    decreases m,
{
    if m <= 1 {
        0
    } else {
        days_before_month(y, m - 1) + days_of_month(y, m - 1)
    }
}

/// Day index of a calendar date, counted from 1970-01-01 as day 0.
pub open spec fn day_number(y: int, m: int, d: int) -> int {
    days_before_year(y) + days_before_month(y, m) + d - 1
}

/// Epoch seconds of a calendar date at midnight.
pub open spec fn date_epoch(y: int, m: int, d: int) -> int {
    86400 * day_number(y, m, d)
}

/// A calendar date with the month in range and the day within the month.
pub open spec fn valid_date(y: int, m: int, d: int) -> bool {
    1 <= m <= 12 && 1 <= d <= days_of_month(y, m)
}

/// Whether `year` is a Gregorian leap year.
pub fn is_leap_year(year: u32) -> (r: bool)
    ensures
        r == leap(year as int),
{
    year % 4 == 0 && (year % 100 != 0 || year % 400 == 0)
}

/// Number of days in month `month` of year `year`; months outside 1..=12
/// fall into the default arm of 31.
pub fn days_in_month(year: u32, month: u32) -> (r: u32)
    ensures
        r == days_of_month(year as int, month as int),
{
    match month {
        4 | 6 | 9 | 11 => 30,
        2 => if is_leap_year(year) {
            29
        } else {
            28
        },
        _ => 31,
    }
}

/// The months of a year sum to its length.
pub proof fn lemma_months_fill_year(y: int)
    ensures
        days_before_month(y, 13) == days_of_year(y),
{
    reveal_with_fuel(days_before_month, 13);
}

/// Day counts before years never exceed 366 per elapsed year.
pub proof fn lemma_days_before_year_bound(y: int)
    requires
        1970 <= y,
    ensures
        0 <= days_before_year(y) <= 366 * (y - 1970),
    decreases y - 1970,
{
    if y > 1970 {
        lemma_days_before_year_bound(y - 1);
    }
}

/// Day counts before months grow by at most 31 per month.
pub proof fn lemma_days_before_month_bound(y: int, m: int)
    requires
        1 <= m,
    ensures
        0 <= days_before_month(y, m) <= 31 * (m - 1),
    decreases m,
{
    if m > 1 {
        lemma_days_before_month_bound(y, m - 1);
    }
}

/// `days_before_year` is monotone, by at least the length of each year.
pub proof fn lemma_days_before_year_mono(a: int, b: int)
    requires
        1970 <= a < b,
    ensures
        days_before_year(a) + days_of_year(a) <= days_before_year(b),
    decreases b - a,
{
    if a < b - 1 {
        lemma_days_before_year_mono(a, b - 1);
    }
}

/// `days_before_month` is monotone, by at least the length of each month.
pub proof fn lemma_days_before_month_mono(y: int, a: int, b: int)
    requires
        1 <= a < b,
    ensures
        days_before_month(y, a) + days_of_month(y, a) <= days_before_month(y, b),
    decreases b - a,
{
    if a < b - 1 {
        lemma_days_before_month_mono(y, a, b - 1);
    }
}

/// A valid date's day number lies inside its year's span of days.
pub proof fn lemma_day_number_in_year(y: int, m: int, d: int)
    requires
        valid_date(y, m, d),
    ensures
        days_before_year(y) <= day_number(y, m, d) < days_before_year(y) + days_of_year(y),
{
    lemma_days_before_month_bound(y, m);
    lemma_months_fill_year(y);
    if m < 13 {
        if m < 12 {
            lemma_days_before_month_mono(y, m + 1, 13);
        }
        assert(days_before_month(y, m) + days_of_month(y, m) == days_before_month(y, m + 1));
    }
}

/// Distinct valid dates have distinct day numbers: the day-accumulation
/// encoding of dates is injective.
pub proof fn lemma_day_number_injective(y1: int, m1: int, d1: int, y2: int, m2: int, d2: int)
    requires
        valid_date(y1, m1, d1),
        valid_date(y2, m2, d2),
        1970 <= y1,
        1970 <= y2,
        day_number(y1, m1, d1) == day_number(y2, m2, d2),
    ensures
        y1 == y2 && m1 == m2 && d1 == d2,
{
    lemma_day_number_in_year(y1, m1, d1);
    lemma_day_number_in_year(y2, m2, d2);
    if y1 < y2 {
        lemma_days_before_year_mono(y1, y2);
    }
    if y2 < y1 {
        lemma_days_before_year_mono(y2, y1);
    }
    assert(y1 == y2);
    if m1 < m2 {
        assert(days_before_month(y1, m1) + days_of_month(y1, m1) == days_before_month(y1, m1 + 1));
        if m1 + 1 < m2 {
            lemma_days_before_month_mono(y1, m1 + 1, m2);
        }
    }
    if m2 < m1 {
        assert(days_before_month(y1, m2) + days_of_month(y1, m2) == days_before_month(y1, m2 + 1));
        if m2 + 1 < m1 {
            lemma_days_before_month_mono(y1, m2 + 1, m1);
        }
    }
    assert(m1 == m2);
}

/// Epoch seconds of a calendar date at midnight: whole days accumulated from
/// 1970, times 86400.  Years before 1970 contribute no days, as in the spec
/// model.
pub fn date_to_timestamp(year: u32, month: u32, day: u32) -> (r: u64)
    requires
        valid_date(year as int, month as int, day as int),
    ensures
        r == date_epoch(year as int, month as int, day as int),
{
    let mut days: u64 = 0;
    let mut y: u32 = 1970;
    proof {
        if 1970 <= year {
            lemma_days_before_year_bound(year as int);
        }
    }
    while y < year
        invariant
            1970 <= y,
            y <= year || y == 1970,
            days == days_before_year(y as int),
            days <= 366 * (y as int - 1970),
        decreases year as int - y as int,
    {
        proof {
            lemma_days_before_year_bound(y as int);
        }
        days = days + if is_leap_year(y) {
            366
        } else {
            365
        };
        y = y + 1;
    }
    proof {
        if year <= 1970 {
            assert(days_before_year(year as int) == 0);
        }
        lemma_days_before_year_bound(y as int);
    }
    let mut m: u32 = 1;
    while m < month
        invariant
            1 <= m <= month || m == 1,
            days == days_before_year(year as int) + days_before_month(year as int, m as int),
            days_before_year(year as int) <= 366 * 0x1_0000_0000,
        decreases month as int - m as int,
    {
        proof {
            lemma_days_before_month_bound(year as int, m as int + 1);
        }
        days = days + days_in_month(year, m) as u64;
        m = m + 1;
    }
    proof {
        lemma_days_before_month_bound(year as int, month as int);
    }
    days = days + (day - 1) as u64;
    days * SECONDS_PER_DAY
}

/// Largest epoch-seconds value whose date decomposition is supported: the
/// derived year is guaranteed to fit in a `u32` below this bound.
pub const MAX_DECOMPOSABLE_EPOCH: u64 = 126_144_000_000_000_000;

/// Decompose epoch seconds into the calendar date `(year, month, day)` whose
/// midnight starts the day containing that instant: the inverse of the
/// day-accumulation of `date_to_timestamp`.
pub fn timestamp_to_date(ts: u64) -> (r: (u32, u32, u32))
    requires
        ts < MAX_DECOMPOSABLE_EPOCH,
    ensures
        valid_date(r.0 as int, r.1 as int, r.2 as int),
        1970 <= r.0,
        day_number(r.0 as int, r.1 as int, r.2 as int) == ts as int / 86400,
{
    let total_days: u64 = ts / SECONDS_PER_DAY;
    assert(total_days < 365 * 4_000_000_000u64) by (nonlinear_arith)
        requires
            ts < 126_144_000_000_000_000u64,
            total_days == ts / 86400u64,
    ;
    let mut year: u32 = 1970;
    let mut rem: u64 = total_days;
    let mut year_len: u64 = if is_leap_year(year) {
        366
    } else {
        365
    };
    while rem >= year_len
        invariant
            1970 <= year,
            year_len == days_of_year(year as int),
            days_before_year(year as int) + rem == total_days,
            365 * (year as int - 1970) <= total_days - rem,
            total_days < 365 * 4_000_000_000u64,
        decreases rem,
    {
        rem = rem - year_len;
        year = year + 1;
        year_len = if is_leap_year(year) {
            366
        } else {
            365
        };
    }
    let ghost rem_in_year = rem as int;
    let mut month: u32 = 1;
    let mut month_len: u64 = days_in_month(year, month) as u64;
    while rem >= month_len
        invariant
            1 <= month <= 13,
            month_len == days_of_month(year as int, month as int),
            days_before_month(year as int, month as int) + rem == rem_in_year,
            rem_in_year < days_of_year(year as int),
        decreases rem,
    {
        proof {
            lemma_months_fill_year(year as int);
        }
        rem = rem - month_len;
        month = month + 1;
        month_len = days_in_month(year, month) as u64;
    }
    proof {
        if month == 13 {
            lemma_months_fill_year(year as int);
        }
    }
    let day: u32 = rem as u32 + 1;
    (year, month, day)
}

/// Round trip at day granularity: any valid date on or after 1970 whose day
/// number matches the day count of `date_epoch(y, m, d)` is `(y, m, d)`
/// itself, so decomposing a date's epoch seconds yields the date back.
pub proof fn lemma_epoch_round_trip(y: int, m: int, d: int, y2: int, m2: int, d2: int)
    requires
        valid_date(y, m, d),
        valid_date(y2, m2, d2),
        1970 <= y,
        1970 <= y2,
        day_number(y2, m2, d2) == date_epoch(y, m, d) / 86400,
    ensures
        y2 == y && m2 == m && d2 == d,
{
    lemma_day_number_in_year(y, m, d);
    lemma_days_before_year_bound(y);
    assert(date_epoch(y, m, d) / 86400 == day_number(y, m, d)) by (nonlinear_arith)
        requires
            date_epoch(y, m, d) == 86400 * day_number(y, m, d),
            day_number(y, m, d) >= 0,
    ;
    lemma_day_number_injective(y2, m2, d2, y, m, d);
}

} // verus!
