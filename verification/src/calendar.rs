//! Civil date arithmetic in the proleptic Gregorian calendar.
//!
//! A day is named by its index, the number of days since 1970-01-01.

use vstd::prelude::*;

verus! {

/// Whether `year` has a 29th of February.
pub open spec fn is_leap_year(year: int) -> bool {
    year % 4 == 0 && (year % 100 != 0 || year % 400 == 0)
}

/// The number of days in a month, `1` for January to `12` for December.
pub open spec fn month_len(year: int, month: int) -> int {
    if month == 2 {
        if is_leap_year(year) {
            29
        } else {
            28
        }
    } else if month == 4 || month == 6 || month == 9 || month == 11 {
        30
    } else {
        31
    }
}

/// Whether year, month and day name a day of the calendar.
pub open spec fn is_date(year: int, month: int, day: int) -> bool {
    1 <= month <= 12 && 1 <= day <= month_len(year, month)
}

/// The index of a day named by year, month and day.
///
/// Years are counted from March, which makes the leap day the last day of the
/// year: with the year shifted so, the days before it and the days before a
/// month in it are plain sums. Month and day may lie outside the calendar; the
/// sum is then continued.
pub open spec fn day_number(year: int, month: int, day: int) -> int {
    let y = if month <= 2 {
        year - 1
    } else {
        year
    };
    let m = if month <= 2 {
        month + 9
    } else {
        month - 3
    };
    365 * y + y / 4 - y / 100 + y / 400 + (153 * m + 2) / 5 + day - 1 - 719_468
}

/// The date after a given one.
pub open spec fn next_date(year: int, month: int, day: int) -> (int, int, int) {
    if day < month_len(year, month) {
        (year, month, day + 1)
    } else if month < 12 {
        (year, month + 1, 1)
    } else {
        (year + 1, 1, 1)
    }
}

/// The year of a cycle of 400 years in which its day `doe` falls.
pub open spec fn year_of_cycle(doe: int) -> int {
    (doe - doe / 1460 + doe / 36524 - doe / 146_096) / 365
}

/// How many days of a cycle of 400 years pass before its year `yoe`.
pub open spec fn cycle_days_before(yoe: int) -> int {
    365 * yoe + yoe / 4 - yoe / 100
}

/// The date `(year, month, day)` of a day index.
pub open spec fn date_of(days: int) -> (int, int, int) {
    let z = days + 719_468;
    let era = z / 146_097;
    let doe = z % 146_097;
    let yoe = year_of_cycle(doe);
    let doy = doe - cycle_days_before(yoe);
    let mp = (5 * doy + 2) / 153;
    let m = if mp < 10 {
        mp + 3
    } else {
        mp - 9
    };
    (
        yoe + era * 400 + if m <= 2 {
            1int
        } else {
            0int
        },
        m,
        doy - (153 * mp + 2) / 5 + 1,
    )
}

proof fn lemma_year_of_cycle(doe: int)
    requires
        0 <= doe < 146_097,
    ensures
        0 <= year_of_cycle(doe) <= 399,
        0 <= doe - cycle_days_before(year_of_cycle(doe)) <= 365,
        doe - cycle_days_before(year_of_cycle(doe)) == 365 ==> is_leap_year(year_of_cycle(doe) + 1),
{
}

proof fn lemma_month_of_year(year: int, doy: int)
    requires
        0 <= doy <= 365,
        doy == 365 ==> is_leap_year(year + 1),
    ensures
        ({
            let mp = (5 * doy + 2) / 153;
            let d = doy - (153 * mp + 2) / 5 + 1;
            let m = if mp < 10 {
                mp + 3
            } else {
                mp - 9
            };
            let y = if m <= 2 {
                year + 1
            } else {
                year
            };
            0 <= mp <= 11 && is_date(y, m, d) && (153 * mp + 2) / 5 + d - 1 == doy
        }),
{
}

proof fn lemma_cycle(era: int, yoe: int)
    requires
        0 <= yoe <= 399,
    ensures
        ({
            let y = era * 400 + yoe;
            365 * y + y / 4 - y / 100 + y / 400 == era * 146_097 + cycle_days_before(yoe)
        }),
        is_leap_year(era * 400 + yoe + 1) == is_leap_year(yoe + 1),
{
}

/// Every day index has a date: [`date_of`] names a day of the calendar, and
/// that day has the index.
pub proof fn date_of_is_right(days: int)
    ensures
        is_date(date_of(days).0, date_of(days).1, date_of(days).2),
        day_number(date_of(days).0, date_of(days).1, date_of(days).2) == days,
{
    let z = days + 719_468;
    let era = z / 146_097;
    let doe = z % 146_097;
    let yoe = year_of_cycle(doe);
    lemma_year_of_cycle(doe);
    lemma_cycle(era, yoe);
    lemma_month_of_year(era * 400 + yoe, doe - cycle_days_before(yoe));
}

/// Consecutive days have consecutive indices, across the ends of months and
/// years, leap years included.
pub proof fn next_date_is_next_day(year: int, month: int, day: int)
    requires
        is_date(year, month, day),
    ensures
        ({
            let (y, m, d) = next_date(year, month, day);
            is_date(y, m, d) && day_number(y, m, d) == day_number(year, month, day) + 1
        }),
{
    if day == month_len(year, month) {
        if month == 2 {
            lemma_leap_day(year);
        } else if month == 12 {
            assert(day_number(year + 1, 1, 1) == day_number(year, 12, 31) + 1);
        }
    }
}

proof fn lemma_leap_day(year: int)
    ensures
        day_number(year, 3, 1) == day_number(year, 2, month_len(year, 2)) + 1,
{
    let era = (year - 1) / 400;
    let yoe = (year - 1) % 400;
    lemma_cycle(era, yoe);
    if yoe < 399 {
        lemma_cycle(era, yoe + 1);
    } else {
        lemma_cycle(era + 1, 0);
    }
}

/// A day index belongs to one date only.
#[verifier::spinoff_prover]
#[verifier::rlimit(50)]
pub proof fn day_number_is_injective(y1: int, m1: int, d1: int, y2: int, m2: int, d2: int)
    requires
        is_date(y1, m1, d1),
        is_date(y2, m2, d2),
        day_number(y1, m1, d1) == day_number(y2, m2, d2),
    ensures
        y1 == y2 && m1 == m2 && d1 == d2,
{
}

/// Days since 1970-01-01 for a proleptic-Gregorian year, month and day. Valid for
/// any year in `i32`.
///
/// The era arithmetic avoids leap-year special cases entirely by shifting the
/// year to start in March.
pub fn days_from_civil(year: i32, month: u32, day: u32) -> (res: i64)
    ensures
        res == day_number(year as int, month as int, day as int),
{
    let y: i64 = if month <= 2 {
        year as i64 - 1
    } else {
        year as i64
    };
    let era: i64 = floor_div(y, 400);
    let yoe: i64 = y - era * 400;
    let m: i64 = month as i64;
    let d: i64 = day as i64;
    let doy: i64 = (153 * (if m > 2 {
        m - 3
    } else {
        m + 9
    }) + 2) / 5 + d - 1;
    let doe: i64 = yoe * 365 + yoe / 4 - yoe / 100 + doy;
    proof {
        lemma_cycle(era as int, yoe as int);
    }
    era * 146_097 + doe - 719_468
}

/// The quotient of `a` and a positive `b`, rounded down.
pub fn floor_div(a: i64, b: i64) -> (res: i64)
    requires
        b > 0,
    ensures
        res == a as int / b as int,
{
    let ghost x = a as int;
    let ghost y = b as int;
    assert(-0x8000_0000_0000_0000 <= x / y <= 0x7fff_ffff_ffff_ffff) by (nonlinear_arith)
        requires
            y > 0,
            -0x8000_0000_0000_0000 <= x <= 0x7fff_ffff_ffff_ffff,
    ;
    match a.checked_div_euclid(b) {
        Some(q) => q,
        None => 0,
    }
}

/// The remainder that [`floor_div`] leaves.
pub fn floor_rem(a: i64, b: i64) -> (res: i64)
    requires
        b > 0,
    ensures
        res == a as int % b as int,
{
    match a.checked_rem_euclid(b) {
        Some(r) => r,
        None => 0,
    }
}

/// Inverse of [`days_from_civil`]: a day index back to `(year, month, day)`.
///
/// A year that does not fit is cut down to its low 32 bits.
pub fn civil_from_days(days: i64) -> (res: (i32, u32, u32))
    requires
        days + 719_468 <= i64::MAX,
    ensures
        res.0 == date_of(days as int).0 as i32,
        res.1 == date_of(days as int).1,
        res.2 == date_of(days as int).2,
{
    let z: i64 = days + 719_468;
    let era: i64 = floor_div(z, 146_097);
    let doe: i64 = floor_rem(z, 146_097);
    proof {
        lemma_year_of_cycle(doe as int);
        date_of_is_right(days as int);
    }
    let yoe: i64 = (doe - doe / 1460 + doe / 36524 - doe / 146_096) / 365;
    let y: i64 = yoe + era * 400;
    let doy: i64 = doe - (365 * yoe + yoe / 4 - yoe / 100);
    let mp: i64 = (5 * doy + 2) / 153;
    let d: i64 = doy - (153 * mp + 2) / 5 + 1;
    let m: i64 = if mp < 10 {
        mp + 3
    } else {
        mp - 9
    };
    let shifted: i64 = if m <= 2 {
        y + 1
    } else {
        y
    };
    (#[verifier::truncate] (shifted as i32), m as u32, d as u32)
}

/// Day of the week for a day index, `0 = Sunday` … `6 = Saturday`.
///
/// Day 0 (1970-01-01) was a Thursday, hence the `+ 4`.
pub fn weekday(day_index: i64) -> (res: u32)
    requires
        day_index + 4 <= i64::MAX,
    ensures
        res == weekday_of(day_index as int),
{
    floor_rem(day_index + 4, 7) as u32
}

/// Day of the week for a day index, `0` for Sunday.
pub open spec fn weekday_of(day_index: int) -> int {
    (day_index + 4) % 7
}

/// Converting a date to its day index and back gives the date again.
pub proof fn date_survives_round_trip(year: int, month: int, day: int)
    requires
        is_date(year, month, day),
    ensures
        date_of(day_number(year, month, day)) == (year, month, day),
{
    let days = day_number(year, month, day);
    date_of_is_right(days);
    let (y, m, d) = date_of(days);
    day_number_is_injective(year, month, day, y, m, d);
}

/// The calendar is the Gregorian one: every fourth year is a leap year, of the
/// full centuries every fourth only, and the months have their lengths.
pub proof fn calendar_is_gregorian(year: int)
    ensures
        year % 400 == 0 ==> is_leap_year(year),
        year % 100 == 0 && year % 400 != 0 ==> !is_leap_year(year),
        year % 4 == 0 && year % 100 != 0 ==> is_leap_year(year),
        year % 4 != 0 ==> !is_leap_year(year),
        seq![
            month_len(year, 1),
            month_len(year, 3),
            month_len(year, 4),
            month_len(year, 5),
            month_len(year, 6),
            month_len(year, 7),
            month_len(year, 8),
            month_len(year, 9),
            month_len(year, 10),
            month_len(year, 11),
            month_len(year, 12),
        ] == seq![31int, 31, 30, 31, 30, 31, 31, 30, 31, 30, 31],
        is_leap_year(year) ==> month_len(year, 2) == 29,
        !is_leap_year(year) ==> month_len(year, 2) == 28,
        forall|month: int, day: int| #[trigger]
            is_date(year, month, day) <==> 1 <= month <= 12 && 1 <= day <= month_len(year, month),
{
}

/// Day indices count from the first of January 1970, one per day, also beyond the
/// ends of a month.
pub proof fn days_are_counted_one_by_one(year: int, month: int, day: int, more: int)
    ensures
        day_number(1970, 1, 1) == 0,
        day_number(year, month, day + more) == day_number(year, month, day) + more,
{
}

/// A month takes as many days as it has.
pub proof fn months_take_their_days(year: int, month: int, day: int)
    requires
        1 <= month <= 12,
    ensures
        month < 12 ==> day_number(year, month + 1, day) == day_number(year, month, day)
            + month_len(year, month),
        month == 12 ==> day_number(year + 1, 1, day) == day_number(year, 12, day) + 31,
{
    if month == 2 {
        lemma_leap_day(year);
        days_are_counted_one_by_one(year, 3, 1, day - 1);
        days_are_counted_one_by_one(year, 2, month_len(year, 2), day - month_len(year, 2));
    }
}

/// A year takes 365 days or, as a leap year, 366.
pub proof fn years_take_their_days(year: int, day: int)
    ensures
        is_leap_year(year) ==> day_number(year + 1, 1, day) == day_number(year, 1, day) + 366,
        !is_leap_year(year) ==> day_number(year + 1, 1, day) == day_number(year, 1, day) + 365,
{
    months_take_their_days(year, 1, day);
    months_take_their_days(year, 2, day);
    assert(day_number(year, 12, day) == day_number(year, 3, day) + 275);
    months_take_their_days(year, 12, day);
}

/// The calendar repeats every 400 years, which are 146 097 days.
pub proof fn calendar_repeats(year: int, month: int, day: int)
    ensures
        day_number(year + 400, month, day) == day_number(year, month, day) + 146_097,
{
    let y = if month <= 2 {
        year - 1
    } else {
        year
    };
    assert((y + 400) / 4 == y / 4 + 100);
    assert((y + 400) / 100 == y / 100 + 4);
    assert((y + 400) / 400 == y / 400 + 1);
}

/// Months beyond December go on in the rhythm of the year that begins in March.
pub proof fn months_beyond_december_go_on(year: int, month: int, day: int)
    requires
        month > 12,
    ensures
        day_number(year, month + 5, day) == day_number(year, month, day) + 153,
        day_number(year, 13, day) == day_number(year, 12, day) + 31,
        day_number(year, 14, day) == day_number(year, 13, day) + 31,
        day_number(year, 15, day) == day_number(year, 14, day) + 30,
        day_number(year, 16, day) == day_number(year, 15, day) + 31,
        day_number(year, 17, day) == day_number(year, 16, day) + 30,
{
}

/// The first day was a Thursday, and the days of the week follow each other.
pub proof fn weekdays_follow_each_other(day_index: int)
    ensures
        weekday_of(0) == 4,
        0 <= weekday_of(day_index) <= 6,
        weekday_of(day_index) < 6 ==> weekday_of(day_index + 1) == weekday_of(day_index) + 1,
        weekday_of(day_index) == 6 ==> weekday_of(day_index + 1) == 0,
{
}

} // verus!
