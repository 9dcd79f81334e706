//! Days and dates.

use vstd::prelude::*;
use crate::text::{decimal_is_short, digits_value, padded, padded_reads_back, push_padded};

verus! {

/// A year with a leap day.
pub open spec fn leap(y: int) -> bool {
    y % 4 == 0 && (y % 100 != 0 || y % 400 == 0)
}

/// How many days a year has.
pub open spec fn year_length(y: int) -> int {
    if leap(y) {
        366
    } else {
        365
    }
}

/// How many days a month has.
pub open spec fn month_length(y: int, m: int) -> int {
    if m == 2 {
        if leap(y) {
            29
        } else {
            28
        }
    } else if m == 4 || m == 6 || m == 9 || m == 11 {
        30
    } else {
        31
    }
}

/// There is such a date.
pub open spec fn is_date(y: int, m: int, d: int) -> bool {
    1 <= m <= 12 && 1 <= d <= month_length(y, m)
}

/// How many days there are from the first day of 1970 to the first day of a year; before
/// 1970 it is negative.
pub open spec fn days_to_year(y: int) -> int {
    365 * (y - 1970) + (y - 1) / 4 - (y - 1) / 100 + (y - 1) / 400 - 477
}

/// How many days of a year are before a month.
pub open spec fn days_to_month(y: int, m: int) -> int
    decreases m,
{
    if m <= 1 {
        0
    } else {
        days_to_month(y, m - 1) + month_length(y, m - 1)
    }
}

/// How many days there are from the first day of 1970 to a date.
pub open spec fn day_number(y: int, m: int, d: int) -> int {
    days_to_year(y) + days_to_month(y, m) + d - 1
}

/// Years follow each other without a gap, from 1970 on and before.
pub proof fn years_follow(y: int)
    ensures
        days_to_year(1970) == 0,
        days_to_year(y + 1) == days_to_year(y) + year_length(y),
{
}

/// The days before each month.
proof fn days_to_months(y: int)
    ensures
        ({
            let x: int = if leap(y) {
                1
            } else {
                0
            };
            &&& days_to_month(y, 1) == 0
            &&& days_to_month(y, 2) == 31
            &&& days_to_month(y, 3) == 59 + x
            &&& days_to_month(y, 4) == 90 + x
            &&& days_to_month(y, 5) == 120 + x
            &&& days_to_month(y, 6) == 151 + x
            &&& days_to_month(y, 7) == 181 + x
            &&& days_to_month(y, 8) == 212 + x
            &&& days_to_month(y, 9) == 243 + x
            &&& days_to_month(y, 10) == 273 + x
            &&& days_to_month(y, 11) == 304 + x
            &&& days_to_month(y, 12) == 334 + x
        }),
{
    reveal_with_fuel(days_to_month, 13);
}

/// A later year begins later.
proof fn years_in_order(a: int, b: int)
    requires
        a <= b,
    ensures
        days_to_year(a) <= days_to_year(b),
    decreases b - a,
{
    if a < b {
        years_follow(b - 1);
        years_in_order(a, b - 1);
    }
}

/// Every day has one date: no two dates have one number.
pub proof fn dates_are_numbered_once(y: int, m: int, d: int, y2: int, m2: int, d2: int)
    requires
        is_date(y, m, d),
        is_date(y2, m2, d2),
        day_number(y, m, d) == day_number(y2, m2, d2),
    ensures
        y == y2 && m == m2 && d == d2,
{
    days_to_months(y);
    days_to_months(y2);
    years_follow(y);
    years_follow(y2);
    if y < y2 {
        years_in_order(y + 1, y2);
    } else if y2 < y {
        years_in_order(y2 + 1, y);
    }
}

/// Day `doe` of 400 years, which begin in March, is day `doe - days` of year `yoe`.
proof fn year_of_era(doe: int, yoe: int)
    requires
        0 <= doe < 146_097,
        yoe == (doe - doe / 1460 + doe / 36_524 - doe / 146_096) / 365,
    ensures
        0 <= yoe < 400,
        0 <= doe - (365 * yoe + yoe / 4 - yoe / 100) <= 365,
        doe - (365 * yoe + yoe / 4 - yoe / 100) == 365 ==> leap(yoe + 1),
{
}

/// Years of which every 400 make up 146097 days.
proof fn march_of_year(era: int, yoe: int)
    requires
        0 <= yoe < 400,
    ensures
        days_to_year(400 * era + yoe) + days_to_month(400 * era + yoe, 3) == 146_097 * era + 365
            * yoe + yoe / 4 - yoe / 100 - 719_468,
        leap(400 * era + yoe + 1) == leap(yoe + 1),
{
    let y = 400 * era + yoe;
    days_to_months(y);
    assert((y - 1) / 4 == 100 * era + (yoe - 1) / 4);
    assert((y - 1) / 100 == 4 * era + (yoe - 1) / 100);
    assert((y - 1) / 400 == era + (yoe - 1) / 400);
}

/// Day `doy` of a year that begins in March is in month `mp` of it.
proof fn day_of_march_year(y: int, doy: int, mp: int)
    requires
        0 <= doy <= 365,
        doy == 365 ==> leap(y + 1),
        mp == (5 * doy + 2) / 153,
    ensures
        0 <= mp < 12,
        ({
            let d = doy - (153 * mp + 2) / 5 + 1;
            let number = days_to_year(y) + days_to_month(y, 3) + doy;
            if mp < 10 {
                is_date(y, mp + 3, d) && day_number(y, mp + 3, d) == number
            } else {
                is_date(y + 1, mp - 9, d) && day_number(y + 1, mp - 9, d) == number
            }
        }),
{
    days_to_months(y);
    days_to_months(y + 1);
    years_follow(y);
    assert(mp == 0 || mp == 1 || mp == 2 || mp == 3 || mp == 4 || mp == 5 || mp == 6 || mp == 7
        || mp == 8 || mp == 9 || mp == 10 || mp == 11);
}

/// The date of a day, counted from the first day of 1970.
pub fn civil_from_days(days: i64) -> (r: (i64, u32, u32))
    requires
        days <= i64::MAX - 719_468,
    ensures
        is_date(r.0 as int, r.1 as int, r.2 as int),
        day_number(r.0 as int, r.1 as int, r.2 as int) == days,
{
    let z: i64 = days + 719_468;
    let era: i64 = if z >= 0 {
        z / 146_097
    } else {
        -((-(z + 1)) / 146_097) - 1
    };
    let doe: i64 = z - era * 146_097;
    let yoe: i64 = (doe - doe / 1460 + doe / 36_524 - doe / 146_096) / 365;
    proof {
        year_of_era(doe as int, yoe as int);
    }
    let year: i64 = yoe + era * 400;
    let doy: i64 = doe - (365 * yoe + yoe / 4 - yoe / 100);
    let mp: i64 = (5 * doy + 2) / 153;
    proof {
        march_of_year(era as int, yoe as int);
        day_of_march_year(year as int, doy as int, mp as int);
    }
    let day: u32 = (doy - (153 * mp + 2) / 5 + 1) as u32;
    let month: u32 = (if mp < 10 {
        mp + 3
    } else {
        mp - 9
    }) as u32;
    let y: i64 = if month <= 2 {
        year + 1
    } else {
        year
    };
    (y, month, day)
}

/// A date and a second of the day, as `2024-02-29T23:59:59Z`.
pub open spec fn stamp(y: int, m: int, d: int, second: int) -> Seq<char> {
    padded(y as nat, 4) + seq!['-'] + padded(m as nat, 2) + seq!['-'] + padded(d as nat, 2)
        + seq!['T'] + padded((second / 3600) as nat, 2) + seq![':'] + padded(
        (second % 3600 / 60) as nat,
        2,
    ) + seq![':'] + padded((second % 60) as nat, 2) + seq!['Z']
}

/// The date and time of a second, counted from the beginning of 1970.
pub fn utc_timestamp(secs: i64) -> (r: String)
    requires
        secs >= 0,
    ensures
        exists|y: int, m: int, d: int|
            #![trigger is_date(y, m, d)]
            is_date(y, m, d) && day_number(y, m, d) == secs as int / 86_400 && r@ == stamp(
                y,
                m,
                d,
                secs as int % 86_400,
            ),
{
    let (year, month, day) = civil_from_days(secs / 86_400);
    proof {
        if year < 1970 {
            years_in_order(year as int + 1, 1970);
            years_follow(year as int);
            days_to_months(year as int);
        }
    }
    let second: u64 = (secs % 86_400) as u64;
    let mut r: String = String::new();
    push_padded(&mut r, year as u64, 4);
    r.push('-');
    push_padded(&mut r, month as u64, 2);
    r.push('-');
    push_padded(&mut r, day as u64, 2);
    r.push('T');
    push_padded(&mut r, second / 3600, 2);
    r.push(':');
    push_padded(&mut r, second % 3600 / 60, 2);
    r.push(':');
    push_padded(&mut r, second % 60, 2);
    r.push('Z');
    assert(r@ =~= stamp(year as int, month as int, day as int, secs as int % 86_400));
    r
}

/// Which years have a leap day, that every 400 years make up the same number of days, and where
/// days are counted from.
pub proof fn years_are_gregorian(y: int)
    ensures
        leap(y) <==> y % 4 == 0 && y % 100 != 0 || y % 400 == 0,
        days_to_year(y + 400) == days_to_year(y) + 146_097,
        day_number(1970, 1, 1) == 0,
{
    assert((y + 400 - 1) / 4 == (y - 1) / 4 + 100);
    assert((y + 400 - 1) / 100 == (y - 1) / 100 + 4);
    assert((y + 400 - 1) / 400 == (y - 1) / 400 + 1);
    if y % 400 == 0 {
        assert(y % 4 == 0);
    }
}

/// How many days come before each month, and that months make up the year.
pub proof fn months_are_gregorian(y: int)
    ensures
        ({
            let feb: int = if leap(y) {
                29
            } else {
                28
            };
            &&& days_to_month(y, 1) == 0
            &&& days_to_month(y, 2) == 31
            &&& days_to_month(y, 3) == 31 + feb
            &&& days_to_month(y, 4) == 62 + feb
            &&& days_to_month(y, 5) == 92 + feb
            &&& days_to_month(y, 6) == 123 + feb
            &&& days_to_month(y, 7) == 153 + feb
            &&& days_to_month(y, 8) == 184 + feb
            &&& days_to_month(y, 9) == 215 + feb
            &&& days_to_month(y, 10) == 245 + feb
            &&& days_to_month(y, 11) == 276 + feb
            &&& days_to_month(y, 12) == 306 + feb
            &&& days_to_month(y, 13) == 337 + feb
        }),
{
    days_to_months(y);
    assert(month_length(y, 12) == 31);
}

/// A time stamp can be read: year, month, day, hour, minute and second stand at their places.
pub proof fn stamps_can_be_read(y: int, m: int, d: int, second: int)
    requires
        0 <= y < 10000,
        is_date(y, m, d),
        0 <= second < 86_400,
    ensures
        ({
            let s = stamp(y, m, d, second);
            &&& s.len() == 20
            &&& digits_value(s.subrange(0, 4)) == y
            &&& s[4] == '-'
            &&& digits_value(s.subrange(5, 7)) == m
            &&& s[7] == '-'
            &&& digits_value(s.subrange(8, 10)) == d
            &&& s[10] == 'T'
            &&& digits_value(s.subrange(11, 13)) * 3600 + digits_value(s.subrange(14, 16)) * 60
                + digits_value(s.subrange(17, 19)) == second
            &&& digits_value(s.subrange(14, 16)) < 60
            &&& digits_value(s.subrange(17, 19)) < 60
            &&& s[13] == ':'
            &&& s[16] == ':'
            &&& s[19] == 'Z'
        }),
{
    let (h, n, c) = (second / 3600, second % 3600 / 60, second % 60);
    padded_reads_back(y as nat, 4);
    padded_reads_back(m as nat, 2);
    padded_reads_back(d as nat, 2);
    padded_reads_back(h as nat, 2);
    padded_reads_back(n as nat, 2);
    padded_reads_back(c as nat, 2);
    decimal_is_short(y as nat);
    decimal_is_short(m as nat);
    decimal_is_short(d as nat);
    decimal_is_short(h as nat);
    decimal_is_short(n as nat);
    decimal_is_short(c as nat);
    let s = stamp(y, m, d, second);
    assert(s.subrange(0, 4) =~= padded(y as nat, 4));
    assert(s.subrange(5, 7) =~= padded(m as nat, 2));
    assert(s.subrange(8, 10) =~= padded(d as nat, 2));
    assert(s.subrange(11, 13) =~= padded(h as nat, 2));
    assert(s.subrange(14, 16) =~= padded(n as nat, 2));
    assert(s.subrange(17, 19) =~= padded(c as nat, 2));
}

} // verus!
