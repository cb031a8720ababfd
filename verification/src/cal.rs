//! Civil dates: conversion between days (and Unix seconds, UTC) and dates of the proleptic
//! Gregorian calendar, weekday and month lengths, by Howard Hinnant's day-count algorithms.
use vstd::prelude::*;

verus! {

/// A civil date (proleptic Gregorian calendar, UTC).
#[derive(Clone, Copy, Debug, PartialEq, Eq, Structural)]
pub struct Civil {
    /// Year (e.g. 2026).
    pub year: i64,
    /// Month 1..=12.
    pub month: u8,
    /// Day 1..=31.
    pub day: u8,
    /// Weekday, Monday = 0 .. Sunday = 6.
    pub weekday: u8,
}

/// Days from 1970-01-01 to the date `y`-`m`-`d`.
pub open spec fn days_of(y: int, m: int, d: int) -> int {
    let yy = if m <= 2 { y - 1 } else { y };
    let era = yy / 400;
    let yoe = yy - era * 400;
    let mp = (m + 9) % 12;
    let doy = (153 * mp + 2) / 5 + d - 1;
    let doe = yoe * 365 + yoe / 4 - yoe / 100 + doy;
    era * 146097 + doe - 719468
}

/// The date `(year, month, day)` of day `z` counted from 1970-01-01.
pub open spec fn date_of(z: int) -> (int, int, int) {
    let zz = z + 719468;
    let era = zz / 146097;
    let doe = zz - era * 146097;
    let yoe = (doe - doe / 1460 + doe / 36524 - doe / 146096) / 365;
    let y = yoe + era * 400;
    let doy = doe - (365 * yoe + yoe / 4 - yoe / 100);
    let mp = (5 * doy + 2) / 153;
    let d = doy - (153 * mp + 2) / 5 + 1;
    let m = if mp < 10 { mp + 3 } else { mp - 9 };
    (if m <= 2 { y + 1 } else { y }, m, d)
}

/// Years whose day counts fit in an `i64` with room to spare.
pub open spec fn year_in_range(y: int) -> bool {
    -0x40_0000_0000_0000 <= y <= 0x40_0000_0000_0000
}

/// Day counts whose dates fit in an `i64`.
pub open spec fn day_in_range(z: int) -> bool {
    -0x100_0000_0000_0000 <= z <= 0x100_0000_0000_0000
}

/// `x / d` rounded down, for `d > 0`, using divisions of non-negative numbers only.
fn floor_div(x: i64, d: i64) -> (q: i64)
    requires
        d > 0,
        x > i64::MIN + d,
    ensures
        q == x / d,
{
    if x >= 0 {
        x / d
    } else {
        let n = d - 1 - x;
        let a = n / d;
        let q = -a;
        proof {
            let ni = n as int;
            let di = d as int;
            let ai = a as int;
            let r = ni % di;
            vstd::arithmetic::div_mod::lemma_fundamental_div_mod(ni, di);
            assert(ai == ni / di);
            assert(0 <= r < di);
            assert(x as int == di * (-ai) + (di - 1 - r)) by (nonlinear_arith)
                requires
                    ni == di * ai + r,
                    ni == di - 1 - x,
            ;
            vstd::arithmetic::div_mod::lemma_div_multiples_vanish_fancy(-ai, di - 1 - r, di);
        }
        q
    }
}

/// Days from 1970-01-01 to a civil date.
pub fn days_from_civil(y: i64, m: u8, d: u8) -> (r: i64)
    requires
        year_in_range(y as int),
    ensures
        r == days_of(y as int, m as int, d as int),
{
    let m = m as i64;
    let d = d as i64;
    let y = if m <= 2 { y - 1 } else { y };
    let era = floor_div(y, 400);
    let yoe = y - era * 400;
    assert(0 <= yoe < 400);
    let mp = (m + 9) % 12;
    let doy = (153 * mp + 2) / 5 + d - 1;
    let doe = yoe * 365 + yoe / 4 - yoe / 100 + doy;
    era * 146097 + doe - 719468
}

/// Civil date `(year, month, day)` for a day count from 1970-01-01.
pub fn civil_from_days(z: i64) -> (r: (i64, u8, u8))
    requires
        day_in_range(z as int),
    ensures
        r.0 == date_of(z as int).0,
        r.1 == date_of(z as int).1,
        r.2 == date_of(z as int).2,
{
    let z = z + 719468;
    let era = floor_div(z, 146097);
    let doe = z - era * 146097;
    assert(0 <= doe < 146097);
    let yoe = (doe - doe / 1460 + doe / 36524 - doe / 146096) / 365;
    assert(0 <= yoe <= 400);
    let y = yoe + era * 400;
    let doy = doe - (365 * yoe + yoe / 4 - yoe / 100);
    proof {
        lemma_doy_range(doe as int);
    }
    let mp = (5 * doy + 2) / 153;
    let d = doy - (153 * mp + 2) / 5 + 1;
    let m = if mp < 10 { mp + 3 } else { mp - 9 };
    proof {
        lemma_month_day_range(doy as int);
    }
    (if m <= 2 { y + 1 } else { y }, m as u8, d as u8)
}

/// Within a 400-year era, the day of the year is in `0..=365`.
pub proof fn lemma_doy_range(doe: int)
    requires
        0 <= doe < 146097,
    ensures
        ({
            let yoe = (doe - doe / 1460 + doe / 36524 - doe / 146096) / 365;
            let doy = doe - (365 * yoe + yoe / 4 - yoe / 100);
            0 <= yoe <= 399 && 0 <= doy <= 365
        }),
{
    let c = doe / 36524;
    let q = doe / 1460;
    let e = doe / 146096;
    let yoe = (doe - q + c - e) / 365;
    assert(0 <= yoe <= 399);
    let doy = doe - (365 * yoe + yoe / 4 - yoe / 100);
    assert(0 <= doy <= 365);
}

/// Month and day computed from a day of the year `0..=365` (counted from March) are a
/// month `1..=12` and a day `1..=31`.
pub proof fn lemma_month_day_range(doy: int)
    requires
        0 <= doy <= 365,
    ensures
        ({
            let mp = (5 * doy + 2) / 153;
            let d = doy - (153 * mp + 2) / 5 + 1;
            0 <= mp <= 11 && 1 <= d <= 31
        }),
{
}

/// Weekday (Monday = 0 .. Sunday = 6) of a day count from 1970-01-01, a Thursday.
pub fn weekday_from_days(z: i64) -> (r: u8)
    requires
        z <= i64::MAX - 3,
    ensures
        r == (z + 3) % 7,
{
    let x = z + 3;
    if x >= 0 {
        (x % 7) as u8
    } else {
        let p = -(x + 1);
        let s = p % 7;
        proof {
            let pi = p as int;
            let si = s as int;
            let k = pi / 7;
            vstd::arithmetic::div_mod::lemma_fundamental_div_mod(pi, 7);
            assert(x as int == 7 * (-k - 1) + (6 - si));
            vstd::arithmetic::div_mod::lemma_div_multiples_vanish_fancy(-k - 1, 6 - si, 7);
            vstd::arithmetic::div_mod::lemma_fundamental_div_mod(x as int, 7);
        }
        (6 - s) as u8
    }
}

/// Whether `y` is a leap year.
pub fn is_leap(y: i64) -> (r: bool)
    ensures
        r == ((y % 4 == 0 && y % 100 != 0) || y % 400 == 0),
{
    let y4 = y % 4 == 0;
    let y100 = y % 100 == 0;
    let y400 = y % 400 == 0;
    (y4 && !y100) || y400
}

/// Length of month `m` of year `y`; 0 for an invalid month.
pub open spec fn month_length(y: int, m: int) -> int {
    if m == 1 || m == 3 || m == 5 || m == 7 || m == 8 || m == 10 || m == 12 {
        31
    } else if m == 4 || m == 6 || m == 9 || m == 11 {
        30
    } else if m == 2 {
        if (y % 4 == 0 && y % 100 != 0) || y % 400 == 0 { 29 } else { 28 }
    } else {
        0
    }
}

/// Days in month `m` of year `y` (0 for an invalid month).
pub fn days_in_month(y: i64, m: u8) -> (r: u8)
    ensures
        r == month_length(y as int, m as int),
{
    match m {
        1 | 3 | 5 | 7 | 8 | 10 | 12 => 31,
        4 | 6 | 9 | 11 => 30,
        2 => if is_leap(y) { 29 } else { 28 },
        _ => 0,
    }
}

/// Unix seconds (UTC) to a civil date with weekday.
pub fn civil_from_epoch(secs: u64) -> (c: Civil)
    ensures
        c.year == date_of((secs / 86400) as int).0,
        c.month == date_of((secs / 86400) as int).1,
        c.day == date_of((secs / 86400) as int).2,
        c.weekday == (secs / 86400 + 3) % 7,
{
    let days = (secs / 86400) as i64;
    let (year, month, day) = civil_from_days(days);
    Civil { year, month, day, weekday: weekday_from_days(days) }
}

/// Converting a day count to a civil date and back gives the same day count.
pub proof fn lemma_civil_round_trip(z: int)
    ensures
        days_of(date_of(z).0, date_of(z).1, date_of(z).2) == z,
{
    let zz = z + 719468;
    let era = zz / 146097;
    let doe = zz - era * 146097;
    vstd::arithmetic::div_mod::lemma_fundamental_div_mod(zz, 146097);
    assert(0 <= doe < 146097);
    lemma_doy_range(doe);
    let yoe = (doe - doe / 1460 + doe / 36524 - doe / 146096) / 365;
    let doy = doe - (365 * yoe + yoe / 4 - yoe / 100);
    lemma_month_day_range(doy);
    let y = yoe + era * 400;
    vstd::arithmetic::div_mod::lemma_div_multiples_vanish_fancy(era, yoe, 400);
    assert((400 * era + yoe) / 400 == era);
    assert(y / 400 == era);
}

/// Within a 400-year era, the last day of a March-based year that is numbered 365 falls in a
/// year whose following calendar year is a leap year.
proof fn lemma_leap_day(doe: int)
    requires
        0 <= doe < 146097,
    ensures
        ({
            let yoe = (doe - doe / 1460 + doe / 36524 - doe / 146096) / 365;
            let doy = doe - (365 * yoe + yoe / 4 - yoe / 100);
            doy == 365 ==> ((yoe + 1) % 4 == 0 && ((yoe + 1) % 100 != 0 || (yoe + 1) % 400 == 0))
        }),
{
}

/// Every day count converts to a valid civil date: a month `1..=12` and a day between 1 and
/// the length of that month.
pub proof fn lemma_civil_date_valid(z: int)
    ensures
        1 <= date_of(z).1 <= 12,
        1 <= date_of(z).2 <= month_length(date_of(z).0, date_of(z).1),
{
    let zz = z + 719468;
    let era = zz / 146097;
    let doe = zz - era * 146097;
    vstd::arithmetic::div_mod::lemma_fundamental_div_mod(zz, 146097);
    lemma_doy_range(doe);
    lemma_leap_day(doe);
    let yoe = (doe - doe / 1460 + doe / 36524 - doe / 146096) / 365;
    let doy = doe - (365 * yoe + yoe / 4 - yoe / 100);
    lemma_month_day_range(doy);
    let yy = yoe + 1 + era * 400;
    vstd::arithmetic::div_mod::lemma_mod_multiples_vanish(100 * era, yoe + 1, 4);
    vstd::arithmetic::div_mod::lemma_mod_multiples_vanish(4 * era, yoe + 1, 100);
    vstd::arithmetic::div_mod::lemma_mod_multiples_vanish(era, yoe + 1, 400);
    assert(yy % 4 == (yoe + 1) % 4);
    assert(yy % 100 == (yoe + 1) % 100);
    assert(yy % 400 == (yoe + 1) % 400);
}

/// Within a 400-year era, the year and day of the year are recovered from the day of the era.
proof fn lemma_era_inverse(yoe: int, doy: int)
    requires
        0 <= yoe <= 399,
        0 <= doy <= 364 || (doy == 365 && (yoe + 1) % 4 == 0 && ((yoe + 1) % 100 != 0 || yoe == 399)),
    ensures
        ({
            let doe = 365 * yoe + yoe / 4 - yoe / 100 + doy;
            &&& 0 <= doe < 146097
            &&& (doe - doe / 1460 + doe / 36524 - doe / 146096) / 365 == yoe
        }),
{
}

/// Converting a valid civil date to a day count and back gives the same date.
pub proof fn lemma_days_round_trip(y: int, m: int, d: int)
    requires
        1 <= m <= 12,
        1 <= d <= month_length(y, m),
    ensures
        date_of(days_of(y, m, d)) == (y, m, d),
{
    let yy = if m <= 2 { y - 1 } else { y };
    let era = yy / 400;
    let yoe = yy - era * 400;
    vstd::arithmetic::div_mod::lemma_fundamental_div_mod(yy, 400);
    let mp = (m + 9) % 12;
    let doy = (153 * mp + 2) / 5 + d - 1;
    vstd::arithmetic::div_mod::lemma_mod_multiples_vanish(100 * era, yoe + 1, 4);
    vstd::arithmetic::div_mod::lemma_mod_multiples_vanish(4 * era, yoe + 1, 100);
    vstd::arithmetic::div_mod::lemma_mod_multiples_vanish(era, yoe + 1, 400);
    lemma_era_inverse(yoe, doy);
    let doe = 365 * yoe + yoe / 4 - yoe / 100 + doy;
    vstd::arithmetic::div_mod::lemma_div_multiples_vanish_fancy(era, doe, 146097);
    assert((146097 * era + doe) / 146097 == era);
}

} // verus!
