//! Dates of the Gregorian calendar as numbers of days.

use vstd::prelude::*;

verus! {

/// The year has a leap day.
pub open spec fn leap(y: int) -> bool {
    y % 4 == 0 && (y % 100 != 0 || y % 400 == 0)
}

/// The number of days of a month.
pub open spec fn month_len(y: int, m: int) -> int {
    if m == 2 {
        if leap(y) {
            29
        } else {
            28
        }
    } else if m == 4 || m == 6 || m == 9 || m == 11 {
        30
    } else {
        31
    }
}

/// The calendar has the date.
pub open spec fn is_date(y: int, m: int, d: int) -> bool {
    1 <= m <= 12 && 1 <= d <= month_len(y, m)
}

/// The number of days of the years from 1970 on before `y`.
pub open spec fn days_of_years(y: int) -> int
    decreases y - 1970,
{
    if y <= 1970 {
        0
    } else {
        days_of_years(y - 1) + (if leap(y - 1) {
            366int
        } else {
            365
        })
    }
}

/// The number of days of the months before `m`.
pub open spec fn days_of_months(y: int, m: int) -> int
    decreases m,
{
    if m <= 1 {
        0
    } else {
        days_of_months(y, m - 1) + month_len(y, m - 1)
    }
}

/// The number of days of the years before `y`, where a year begins in March.
pub open spec fn days_of_march_years(y: int) -> int {
    365 * y + y / 4 - y / 100 + y / 400
}

/// The number of days of the months before the month that is `k` behind March.
pub open spec fn days_of_march_months(k: int) -> int {
    (153 * k + 2) / 5
}

/// The number of days from the first day of 1970 to the date.
pub open spec fn day_number(y: int, m: int, d: int) -> int {
    if m <= 2 {
        days_of_march_years(y - 1) + days_of_march_months(m + 9) + d - 1 - 719468
    } else {
        days_of_march_years(y) + days_of_march_months(m - 3) + d - 1 - 719468
    }
}

proof fn lemma_year_step(y: int)
    ensures
        day_number(y + 1, 1, 1) == day_number(y, 1, 1) + (if leap(y) {
            366int
        } else {
            365
        }),
{
}

/// The lengths of the months from March to January.
proof fn lemma_march_month_step(k: int)
    requires
        0 <= k <= 10,
    ensures
        days_of_march_months(k + 1) == days_of_march_months(k) + (if k == 1 || k == 3 || k == 6
            || k == 8 {
            30int
        } else {
            31
        }),
{
}

/// The days from the first of February to the first of March.
proof fn lemma_february(y: int)
    ensures
        day_number(y, 3, 1) == day_number(y, 2, 1) + month_len(y, 2),
{
    lemma_year_step(y);
}

proof fn lemma_month_step(y: int, m: int)
    requires
        1 <= m < 12,
    ensures
        day_number(y, m + 1, 1) == day_number(y, m, 1) + month_len(y, m),
{
    if m == 2 {
        lemma_february(y);
    } else if m == 1 {
        lemma_march_month_step(10);
    } else {
        lemma_march_month_step(m - 3);
    }
}

/// The number of a date is what counting the days of the years and months
/// before it gives.
pub proof fn lemma_day_number(y: int, m: int, d: int)
    requires
        1970 <= y,
        1 <= m <= 12,
    ensures
        day_number(y, m, d) == days_of_years(y) + days_of_months(y, m) + d - 1,
    decreases y + m,
{
    if m > 1 {
        lemma_day_number(y, m - 1, 1);
        lemma_month_step(y, m - 1);
    } else if y > 1970 {
        lemma_day_number(y - 1, 1, 1);
        lemma_year_step(y - 1);
    }
}

proof fn lemma_later_month(y: int, m: int, n: int)
    requires
        1 <= m <= n <= 12,
    ensures
        day_number(y, m, 1) <= day_number(y, n, 1),
        m < n ==> day_number(y, m, 1) + month_len(y, m) <= day_number(y, n, 1),
    decreases n - m,
{
    if m < n {
        lemma_later_month(y, m, n - 1);
        lemma_month_step(y, n - 1);
    }
}

proof fn lemma_later_year(y: int, z: int)
    requires
        y <= z,
    ensures
        day_number(y, 1, 1) <= day_number(z, 1, 1),
        y < z ==> day_number(y + 1, 1, 1) <= day_number(z, 1, 1),
    decreases z - y,
{
    if y < z {
        lemma_later_year(y, z - 1);
        lemma_year_step(z - 1);
    }
}

proof fn lemma_within_year(y: int, m: int, d: int)
    requires
        is_date(y, m, d),
    ensures
        day_number(y, 1, 1) <= day_number(y, m, d) < day_number(y + 1, 1, 1),
{
    lemma_later_month(y, 1, m);
    lemma_later_month(y, m, 12);
    lemma_year_step(y);
}

/// A later date has a greater number.
proof fn lemma_later(y: int, m: int, d: int, z: int, n: int, e: int)
    requires
        is_date(y, m, d),
        is_date(z, n, e),
        y < z || (y == z && (m < n || (m == n && d < e))),
    ensures
        day_number(y, m, d) < day_number(z, n, e),
{
    if y < z {
        lemma_within_year(y, m, d);
        lemma_within_year(z, n, e);
        lemma_later_year(y, z);
    } else if m < n {
        lemma_later_month(y, m, n);
    }
}

/// The numbers of the dates of some years.
pub proof fn lemma_date_range(y: int, m: int, d: int, first: int, last: int)
    requires
        is_date(y, m, d),
        first <= y <= last,
    ensures
        day_number(first, 1, 1) <= day_number(y, m, d) < day_number(last + 1, 1, 1),
{
    lemma_within_year(y, m, d);
    lemma_later_year(first, y);
    lemma_later_year(y, last + 1);
}

/// The year of a date whose number is one of those of some years.
pub proof fn lemma_year_of(y: int, m: int, d: int, first: int, last: int)
    requires
        is_date(y, m, d),
        day_number(first, 1, 1) <= day_number(y, m, d) < day_number(last + 1, 1, 1),
    ensures
        first <= y <= last,
{
    lemma_within_year(y, m, d);
    if y < first {
        lemma_later_year(y, first);
    } else if y > last {
        lemma_later_year(last, y);
    }
}

/// No two dates have the same number.
pub proof fn lemma_day_number_unique(y: int, m: int, d: int, z: int, n: int, e: int)
    requires
        is_date(y, m, d),
        is_date(z, n, e),
        day_number(y, m, d) == day_number(z, n, e),
    ensures
        y == z,
        m == n,
        d == e,
{
    if y < z || (y == z && (m < n || (m == n && d < e))) {
        lemma_later(y, m, d, z, n, e);
    } else if y != z || m != n || d != e {
        lemma_later(z, n, e, y, m, d);
    }
}

/// The calendar repeats itself every 400 years, which are 146097 days.
pub proof fn lemma_period(y: int, m: int, d: int)
    ensures
        day_number(y + 400, m, d) == day_number(y, m, d) + 146097,
        month_len(y + 400, m) == month_len(y, m),
{
    lemma_cycle_years(y);
    lemma_cycle_years(y - 1);
    lemma_cycle_leap(y);
    let a = days_of_march_years(y);
    let b = days_of_march_years(y - 1);
    assert(days_of_march_years(y + 400) == a + 146097);
    assert(days_of_march_years(y + 400 - 1) == b + 146097);
}

/// The first day of 1970 is day zero. Days count one by one, even beyond the end
/// of their month.
pub proof fn lemma_day_step(y: int, m: int, d: int)
    ensures
        day_number(y, m, d + 1) == day_number(y, m, d) + 1,
        day_number(1970, 1, 1) == 0,
{
}

/// Months that the calendar does not have count on: the month zero is the last one
/// of the year before, and the two behind the last one are the first two of the
/// next year. Any five months from March on have 153 days.
pub proof fn lemma_month_carry(y: int, m: int, d: int)
    ensures
        0 <= m <= 2 ==> day_number(y, m, d) == day_number(y - 1, m + 12, d),
        m >= 3 ==> day_number(y, m + 5, d) == day_number(y, m, d) + 153,
{
}

proof fn lemma_cycle_leap(y: int)
    ensures
        leap(y + 400) == leap(y),
{
}

proof fn lemma_cycle_years(y: int)
    ensures
        days_of_march_years(y + 400) == days_of_march_years(y) + 146097,
{
    assert((y + 400) / 4 == y / 4 + 100);
    assert((y + 400) / 100 == y / 100 + 4);
    assert((y + 400) / 400 == y / 400 + 1);
}

/// The months of a year have 365 days together, or 366 where it is divisible by
/// four and not by 100 or is divisible by 400.
pub proof fn lemma_year_len(y: int)
    ensures
        day_number(y + 1, 1, 1) - day_number(y, 1, 1) == (if y % 400 == 0 || (y % 4 == 0 && y % 100
            != 0) {
            366int
        } else {
            365
        }),
        day_number(y, 3, 1) - day_number(y, 2, 1) == (if y % 400 == 0 || (y % 4 == 0 && y % 100
            != 0) {
            29int
        } else {
            28
        }),
        day_number(y, 2, 1) - day_number(y, 1, 1) == 31,
        day_number(y, 4, 1) - day_number(y, 3, 1) == 31,
        day_number(y, 5, 1) - day_number(y, 4, 1) == 30,
        day_number(y, 6, 1) - day_number(y, 5, 1) == 31,
        day_number(y, 7, 1) - day_number(y, 6, 1) == 30,
        day_number(y, 8, 1) - day_number(y, 7, 1) == 31,
        day_number(y, 9, 1) - day_number(y, 8, 1) == 31,
        day_number(y, 10, 1) - day_number(y, 9, 1) == 30,
        day_number(y, 11, 1) - day_number(y, 10, 1) == 31,
        day_number(y, 12, 1) - day_number(y, 11, 1) == 30,
        day_number(y + 1, 1, 1) - day_number(y, 12, 1) == 31,
{
    lemma_year_step(y);
    lemma_february(y);
}

/// The number of a date. The month and the day may be ones that the calendar
/// does not have.
pub fn civil_to_days(y: i32, m: u8, d: u8) -> (days: i32)
    requires
        1 <= y <= 65535,
        !(m == 3 && d == 0),
    ensures
        days == day_number(y as int, m as int, d as int),
{
    let year: i32 = if m <= 2 {
        y - 1
    } else {
        y
    };
    let k: i32 = if m > 2 {
        m as i32 - 3
    } else {
        m as i32 + 9
    };
    let day_of_year: i32 = (153 * k + 2) / 5 + d as i32 - 1;
    365 * year + year / 4 - year / 100 + year / 400 + day_of_year - 719468
}

proof fn lemma_cycle(era: int, c: int, q: int, n: int)
    requires
        0 <= era,
        0 <= c <= 3,
        0 <= q <= 24,
        0 <= n <= 3,
    ensures
        days_of_march_years(400 * era + 100 * c + 4 * q + n) == 146097 * era + 36524 * c + 1461 * q
            + 365 * n,
{
    let y = 400 * era + 100 * c + 4 * q + n;
    assert(y / 4 == 100 * era + 25 * c + q);
    assert(y / 100 == 4 * era + c);
    assert(y / 400 == era);
}

/// A March year of 366 days ends in a leap year.
proof fn lemma_leap_day(era: int, century: int, cycle: int, n: int)
    requires
        n == 3,
        0 <= century <= 3,
        0 <= cycle <= 24,
        cycle == 24 ==> century == 3,
    ensures
        leap(400 * era + 100 * century + 4 * cycle + n + 1),
{
    let next = 400 * era + 100 * century + 4 * cycle + n + 1;
    assert(next % 4 == 0);
    if cycle < 24 {
        assert(next == 100 * (4 * era + century) + 4 * cycle + 4);
        assert(next % 100 != 0);
    } else {
        assert(next == 400 * (era + 1));
    }
}

/// The date of a number.
pub fn days_to_civil(z: i64) -> (date: (i32, u8, u8))
    requires
        0 <= z <= 10_000_000,
    ensures
        is_date(date.0 as int, date.1 as int, date.2 as int),
        day_number(date.0 as int, date.1 as int, date.2 as int) == z,
{
    let days: i64 = z + 719468;
    let era: i64 = days / 146097;
    let of_era: i64 = days % 146097;
    let century: i64 = if of_era == 146096 {
        3
    } else {
        of_era / 36524
    };
    let of_century: i64 = of_era - 36524 * century;
    let cycle: i64 = of_century / 1461;
    let of_cycle: i64 = of_century % 1461;
    let n: i64 = if of_cycle == 1460 {
        3
    } else {
        of_cycle / 365
    };
    let of_year: i64 = of_cycle - 365 * n;
    let year: i64 = 400 * era + 100 * century + 4 * cycle + n;
    proof {
        lemma_cycle(era as int, century as int, cycle as int, n as int);
    }
    let k: i64 = (5 * of_year + 2) / 153;
    let d: i64 = of_year - (153 * k + 2) / 5 + 1;
    if k < 10 {
        (year as i32, (k + 3) as u8, d as u8)
    } else {
        proof {
            if of_year == 365 {
                lemma_leap_day(era as int, century as int, cycle as int, n as int);
            }
        }
        (year as i32 + 1, (k - 9) as u8, d as u8)
    }
}

} // verus!
