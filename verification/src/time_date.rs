use core::fmt::Write;
use vstd::prelude::*;
use vstd::string::{StringExecFns, StringSliceAdditionalSpecFns};
use vstd::utf8::{
    encode_utf8, encode_utf8_decode_utf8, encode_utf8_valid_utf8, is_ascii_chars,
    is_ascii_chars_encode_utf8,
};

use crate::buffer::StackBuffer;
use crate::text::lemma_encode_utf8_concat;

verus! {

// ---------------------------------------------------------------------------
// The proleptic Gregorian calendar, counted in days from 1970-01-01.
// ---------------------------------------------------------------------------

/// Gregorian leap-year rule.
pub open spec fn is_leap_year(y: int) -> bool {
    (y % 4 == 0 && y % 100 != 0) || y % 400 == 0
}

/// Number of days in month `m` (1..=12) of year `y`.
pub open spec fn days_in_month(y: int, m: int) -> int {
    if m == 2 {
        if is_leap_year(y) { 29 } else { 28 }
    } else if m == 4 || m == 6 || m == 9 || m == 11 {
        30
    } else {
        31
    }
}

/// Number of days of year `y` that precede the first day of month `m` (1..=12).
pub open spec fn days_before_month(y: int, m: int) -> int {
    let feb: int = if is_leap_year(y) { 29 } else { 28 };
    if m <= 1 { 0 }
    else if m == 2 { 31 }
    else if m == 3 { 31 + feb }
    else if m == 4 { 62 + feb }
    else if m == 5 { 92 + feb }
    else if m == 6 { 123 + feb }
    else if m == 7 { 153 + feb }
    else if m == 8 { 184 + feb }
    else if m == 9 { 215 + feb }
    else if m == 10 { 245 + feb }
    else if m == 11 { 276 + feb }
    else { 306 + feb }
}

/// How many leap years lie before year `y` (relative count, valid for every integer `y`).
pub open spec fn leap_years_before(y: int) -> int {
    (y - 1) / 4 - (y - 1) / 100 + (y - 1) / 400
}

/// The day number of date `y-m-d`, counted from 1970-01-01 (day 0).
pub open spec fn days_from_epoch(y: int, m: int, d: int) -> int {
    365 * (y - 1970) + (leap_years_before(y) - leap_years_before(1970)) + days_before_month(y, m) + (d
        - 1)
}

/// `y-m-d` names a day of the calendar.
pub open spec fn is_valid_date(y: int, m: int, d: int) -> bool {
    1 <= m <= 12 && 1 <= d <= days_in_month(y, m)
}

/// The calendar date of day number `n` (day 0 is 1970-01-01).
pub open spec fn date_of_day(n: int) -> (int, int, int) {
    choose|t: (int, int, int)| is_valid_date(t.0, t.1, t.2) && days_from_epoch(t.0, t.1, t.2) == n
}

// ---------------------------------------------------------------------------
// Lemmas
// ---------------------------------------------------------------------------

/// Days from 0000-03-01 to the first of March of year `n` (years counted from March).
spec fn march_year_start(n: int) -> int {
    365 * n + n / 4 - n / 100 + n / 400
}

/// Days from the first of March to the first day of month `mp`, months counted from March (0..=11).
spec fn march_month_start(mp: int) -> int {
    (153 * mp + 2) / 5
}

proof fn lemma_year_of_era(doe: int)
    requires
        0 <= doe <= 146096,
    ensures
        ({
            let yoe = (doe - doe / 1460 + doe / 36524 - doe / 146096) / 365;
            &&& 0 <= yoe <= 399
            &&& 365 * yoe + yoe / 4 - yoe / 100 <= doe
            &&& doe < 365 * (yoe + 1) + (yoe + 1) / 4 - (yoe + 1) / 100 + (yoe + 1) / 400
        }),
{
}

proof fn lemma_month_of_year(doy: int)
    requires
        0 <= doy <= 365,
    ensures
        ({
            let mp = (5 * doy + 2) / 153;
            &&& 0 <= mp <= 11
            &&& march_month_start(mp) <= doy < march_month_start(mp + 1)
        }),
{
}

/// Each year adds one to the leap-year count exactly when it is a leap year.
proof fn lemma_leap_years_step(y: int)
    ensures
        leap_years_before(y + 1) == leap_years_before(y) + (if is_leap_year(y) { 1int } else { 0 }),
{
    assert(y / 4 == (y - 1) / 4 + (if y % 4 == 0 { 1int } else { 0 }));
    assert(y / 100 == (y - 1) / 100 + (if y % 100 == 0 { 1int } else { 0 }));
    assert(y / 400 == (y - 1) / 400 + (if y % 400 == 0 { 1int } else { 0 }));
}

/// March-based day count agrees with the calendar day count.
proof fn lemma_days_from_epoch_march(y: int, m: int, d: int)
    requires
        1 <= m <= 12,
    ensures
        ({
            let yp = if m <= 2 { y - 1 } else { y };
            let mp = if m >= 3 { m - 3 } else { m + 9 };
            days_from_epoch(y, m, d) == march_year_start(yp) + march_month_start(mp) + d - 1 - 719468
        }),
{
    assert(leap_years_before(1970) == 477);
    lemma_leap_years_step(y);
    lemma_leap_years_step(y - 1);
    assert(march_year_start(y) == 365 * y + leap_years_before(y + 1));
    assert(march_year_start(y - 1) == 365 * (y - 1) + leap_years_before(y));
    assert(march_month_start(0) == 0 && march_month_start(1) == 31 && march_month_start(2) == 61
        && march_month_start(3) == 92 && march_month_start(4) == 122 && march_month_start(5) == 153
        && march_month_start(6) == 184 && march_month_start(7) == 214 && march_month_start(8) == 245
        && march_month_start(9) == 275 && march_month_start(10) == 306 && march_month_start(11) == 337);
}

/// Splitting a march-based year count into 400-year eras.
proof fn lemma_march_year_start_era(era: int, yoe: int)
    requires
        0 <= yoe <= 399,
    ensures
        march_year_start(400 * era + yoe) == 146097 * era + 365 * yoe + yoe / 4 - yoe / 100,
{
    assert((400 * era + yoe) / 4 == 100 * era + yoe / 4);
    assert((400 * era + yoe) / 100 == 4 * era + yoe / 100);
    assert((400 * era + yoe) / 400 == era);
}

/// Within a year, the first day of a later month comes later.
proof fn lemma_days_before_month_bounds(y: int, m: int, d: int)
    requires
        is_valid_date(y, m, d),
    ensures
        m < 12 ==> days_before_month(y, m) + d - 1 < days_before_month(y, m + 1),
        0 <= days_before_month(y, m) + d - 1 < 365 + (if is_leap_year(y) { 1int } else { 0 }),
{
}

/// Consecutive years are as long as the leap rule says.
proof fn lemma_year_length(y: int)
    ensures
        days_from_epoch(y + 1, 1, 1) == days_from_epoch(y, 1, 1) + 365 + (if is_leap_year(y) {
            1int
        } else {
            0
        }),
{
    lemma_leap_years_step(y);
}

proof fn lemma_year_start_monotonic(y1: int, y2: int)
    requires
        y1 <= y2,
    ensures
        days_from_epoch(y2, 1, 1) - days_from_epoch(y1, 1, 1) >= 365 * (y2 - y1),
    decreases y2 - y1,
{
    if y1 < y2 {
        lemma_year_start_monotonic(y1, y2 - 1);
        lemma_year_length(y2 - 1);
    }
}

/// Different calendar dates have different day numbers.
pub proof fn law_days_from_epoch_injective(y1: int, m1: int, d1: int, y2: int, m2: int, d2: int)
    requires
        is_valid_date(y1, m1, d1),
        is_valid_date(y2, m2, d2),
        days_from_epoch(y1, m1, d1) == days_from_epoch(y2, m2, d2),
    ensures
        y1 == y2 && m1 == m2 && d1 == d2,
{
    lemma_days_before_month_bounds(y1, m1, d1);
    lemma_days_before_month_bounds(y2, m2, d2);
    assert(days_from_epoch(y1, m1, d1) == days_from_epoch(y1, 1, 1) + days_before_month(y1, m1)
        + d1 - 1);
    assert(days_from_epoch(y2, m2, d2) == days_from_epoch(y2, 1, 1) + days_before_month(y2, m2)
        + d2 - 1);
    if y1 < y2 {
        lemma_year_length(y1);
        lemma_year_start_monotonic(y1 + 1, y2);
        assert(false);
    } else if y2 < y1 {
        lemma_year_length(y2);
        lemma_year_start_monotonic(y2 + 1, y1);
        assert(false);
    }
}

/// Day count of the date reached by the era arithmetic.
proof fn lemma_civil_day_count(era: int, yoe: int, doy: int, mp: int)
    requires
        0 <= yoe <= 399,
        0 <= mp <= 11,
        march_month_start(mp) <= doy,
    ensures
        ({
            let d = doy - march_month_start(mp) + 1;
            let m = if mp < 10 { mp + 3 } else { mp - 9 };
            let y = yoe + era * 400 + (if m <= 2 { 1int } else { 0 });
            days_from_epoch(y, m, d) == 146097 * era + 365 * yoe + yoe / 4 - yoe / 100 + doy - 719468
        }),
{
    let d = doy - march_month_start(mp) + 1;
    let m = if mp < 10 { mp + 3 } else { mp - 9 };
    let y = yoe + era * 400 + (if m <= 2 { 1int } else { 0 });
    lemma_days_from_epoch_march(y, m, d);
    lemma_march_year_start_era(era, yoe);
    assert((if m <= 2 { y - 1 } else { y }) == 400 * era + yoe);
    assert((if m >= 3 { m - 3 } else { m + 9 }) == mp);
}

/// The leap rule repeats every 400 years.
proof fn lemma_leap_year_era(era: int, k: int)
    ensures
        is_leap_year(400 * era + k) == is_leap_year(k),
{
    assert((400 * era + k) % 4 == k % 4);
    assert((400 * era + k) % 100 == k % 100);
    assert((400 * era + k) % 400 == k % 400);
}

/// The date reached by the era arithmetic is a calendar date.
proof fn lemma_civil_valid(era: int, yoe: int, doy: int, mp: int)
    requires
        0 <= yoe <= 399,
        0 <= mp <= 11,
        march_month_start(mp) <= doy < march_month_start(mp + 1),
        doy < 365 + (if is_leap_year(yoe + 1) { 1int } else { 0 }),
    ensures
        ({
            let d = doy - march_month_start(mp) + 1;
            let m = if mp < 10 { mp + 3 } else { mp - 9 };
            let y = yoe + era * 400 + (if m <= 2 { 1int } else { 0 });
            is_valid_date(y, m, d)
        }),
{
    let d = doy - march_month_start(mp) + 1;
    let m = if mp < 10 { mp + 3 } else { mp - 9 };
    let y = yoe + era * 400 + (if m <= 2 { 1int } else { 0 });
    if mp == 11 {
        lemma_leap_year_era(era, yoe + 1);
        assert(y == 400 * era + (yoe + 1));
        assert(march_month_start(11) == 337 && march_month_start(12) == 367);
        assert(d <= days_in_month(y, m));
    } else {
        assert(d <= days_in_month(y, m));
    }
}

/// The date found by era arithmetic from a day within an era.
proof fn lemma_civil_of_era_day(era: int, doe: int)
    requires
        0 <= doe <= 146096,
    ensures
        ({
            let yoe = (doe - doe / 1460 + doe / 36524 - doe / 146096) / 365;
            let doy = doe - (365 * yoe + yoe / 4 - yoe / 100);
            let mp = (5 * doy + 2) / 153;
            let d = doy - (153 * mp + 2) / 5 + 1;
            let m = if mp < 10 { mp + 3 } else { mp - 9 };
            let y = yoe + era * 400 + (if m <= 2 { 1int } else { 0 });
            &&& 0 <= yoe <= 399
            &&& 0 <= doy <= 365
            &&& 0 <= mp <= 11
            &&& 1 <= d <= 31
            &&& is_valid_date(y, m, d)
            &&& days_from_epoch(y, m, d) == 146097 * era + doe - 719468
        }),
{
    let yoe = (doe - doe / 1460 + doe / 36524 - doe / 146096) / 365;
    lemma_year_of_era(doe);
    let doy = doe - (365 * yoe + yoe / 4 - yoe / 100);
    assert(doy < 365 + (if is_leap_year(yoe + 1) { 1int } else { 0 })) by {
        assert((yoe + 1) / 4 == yoe / 4 + (if (yoe + 1) % 4 == 0 { 1int } else { 0 }));
        assert((yoe + 1) / 100 == yoe / 100 + (if (yoe + 1) % 100 == 0 { 1int } else { 0 }));
        assert((yoe + 1) / 400 == (if (yoe + 1) % 400 == 0 { 1int } else { 0 }));
    }
    let mp = (5 * doy + 2) / 153;
    lemma_month_of_year(doy);
    lemma_civil_valid(era, yoe, doy, mp);
    lemma_civil_day_count(era, yoe, doy, mp);
}

/// The era arithmetic finds the calendar date of day `days`.
proof fn lemma_civil_from_days(days: int)
    ensures
        ({
            let z = days + 719468;
            let era = z / 146097;
            let doe = z - era * 146097;
            let yoe = (doe - doe / 1460 + doe / 36524 - doe / 146096) / 365;
            let doy = doe - (365 * yoe + yoe / 4 - yoe / 100);
            let mp = (5 * doy + 2) / 153;
            let d = doy - (153 * mp + 2) / 5 + 1;
            let m = if mp < 10 { mp + 3 } else { mp - 9 };
            let y = yoe + era * 400 + (if m <= 2 { 1int } else { 0 });
            &&& 0 <= doe <= 146096
            &&& 0 <= yoe <= 399
            &&& 0 <= doy <= 365
            &&& 0 <= mp <= 11
            &&& 1 <= d <= 31
            &&& date_of_day(days) == (y, m, d)
        }),
{
    let z = days + 719468;
    let era = z / 146097;
    let doe = z - era * 146097;
    lemma_civil_of_era_day(era, doe);
    let yoe = (doe - doe / 1460 + doe / 36524 - doe / 146096) / 365;
    let doy = doe - (365 * yoe + yoe / 4 - yoe / 100);
    let mp = (5 * doy + 2) / 153;
    let d = doy - (153 * mp + 2) / 5 + 1;
    let m = if mp < 10 { mp + 3 } else { mp - 9 };
    let y = yoe + era * 400 + (if m <= 2 { 1int } else { 0 });
    let w = (y, m, d);
    assert(is_valid_date(w.0, w.1, w.2) && days_from_epoch(w.0, w.1, w.2) == days);
    let t = date_of_day(days);
    assert(is_valid_date(t.0, t.1, t.2) && days_from_epoch(t.0, t.1, t.2) == days);
    law_days_from_epoch_injective(t.0, t.1, t.2, y, m, d);
}

/// Every day number names a calendar date, and that date's day number is the day number.
pub proof fn law_date_of_day(n: int)
    ensures
        is_valid_date(date_of_day(n).0, date_of_day(n).1, date_of_day(n).2),
        days_from_epoch(date_of_day(n).0, date_of_day(n).1, date_of_day(n).2) == n,
{
    lemma_civil_from_days(n);
    lemma_civil_of_era_day((n + 719468) / 146097, (n + 719468) - ((n + 719468) / 146097) * 146097);
}

/// Every calendar date is the date of its own day number.
pub proof fn law_days_from_epoch_date_of_day(y: int, m: int, d: int)
    requires
        is_valid_date(y, m, d),
    ensures
        date_of_day(days_from_epoch(y, m, d)) == (y, m, d),
{
    let n = days_from_epoch(y, m, d);
    law_date_of_day(n);
    let t = date_of_day(n);
    law_days_from_epoch_injective(t.0, t.1, t.2, y, m, d);
}

// ---------------------------------------------------------------------------
// DTime
// ---------------------------------------------------------------------------

/// A UTC date and time of day.
#[derive(Debug, Clone, Copy, PartialEq, Eq, Structural)]
pub struct DTime {
    pub year: i32,
    pub month: u8,
    pub day: u8,
    pub hour: u8,
    pub minute: u8,
    pub second: u8,
}

impl DTime {
    /// The UTC date and time `ts` seconds after 1970-01-01 00:00:00 (before it, for negative `ts`).
    /// The year is kept modulo 2^32, as an `i32` holds it.
    pub open spec fn spec_from_unix(ts: int) -> DTime {
        let days = ts / 86400;
        let secs = ts % 86400;
        let date = date_of_day(days);
        DTime {
            year: date.0 as i32,
            month: date.1 as u8,
            day: date.2 as u8,
            hour: (secs / 3600) as u8,
            minute: ((secs % 3600) / 60) as u8,
            second: (secs % 60) as u8,
        }
    }

    /// Converts unix time (seconds since 1970-01-01 00:00:00 UTC) to a UTC date and time.
    pub fn from_unix(timestamp: i64) -> (r: Self)
        ensures
            r == Self::spec_from_unix(timestamp as int),
    {
        let (days, secs_in_day) = split_days(timestamp);

        let hour = (secs_in_day / 3600) as u8;
        let minute = ((secs_in_day % 3600) / 60) as u8;
        let second = (secs_in_day % 60) as u8;

        proof {
            lemma_civil_from_days(days as int);
        }
        let z = days + 719_468;
        let era = (if z >= 0 { z } else { z - 146_096 }) / 146_097;
        assert(era == z / 146097);
        let doe = (z - era * 146_097) as u64;
        assert(doe / 1460 <= doe && doe / 146096 <= doe / 36524 + doe - doe / 1460);
        let yoe = (doe - doe / 1460 + doe / 36_524 - doe / 146_096) / 365;

        let y = yoe as i64 + era * 400;
        let doy = doe - (365 * yoe + yoe / 4 - yoe / 100);
        let mp = (5 * doy + 2) / 153;

        let day = (doy - (153 * mp + 2) / 5 + 1) as u8;
        let month = if mp < 10 {
            (mp + 3) as u8
        } else {
            (mp - 9) as u8
        };

        let year = (y + if month <= 2 { 1 } else { 0 }) as i32;

        Self { year, month, day, hour, minute, second }
    }
}

/// Seconds since 1970-01-01 00:00:00 of a date and time.
pub open spec fn unix_seconds(t: DTime) -> int {
    days_from_epoch(t.year as int, t.month as int, t.day as int) * 86400 + t.hour * 3600 + t.minute
        * 60 + t.second
}

/// Converting unix time to a date and time and back gives the same unix time, and the result
/// is a calendar date at a time of day, whenever its year fits in an `i32`.
pub proof fn law_from_unix_round_trip(ts: int)
    requires
        i32::MIN <= date_of_day(ts / 86400).0 <= i32::MAX,
    ensures
        ({
            let t = DTime::spec_from_unix(ts);
            &&& is_valid_date(t.year as int, t.month as int, t.day as int)
            &&& t.hour < 24 && t.minute < 60 && t.second < 60
            &&& unix_seconds(t) == ts
        }),
{
    law_date_of_day(ts / 86400);
    let secs = ts % 86400;
    assert((secs / 3600) * 3600 + ((secs % 3600) / 60) * 60 + secs % 60 == secs);
    assert((ts / 86400) * 86400 + secs == ts);
}

/// `a` comes strictly before `b`: by year, then month, day, hour, minute and second.
pub open spec fn dtime_before(a: DTime, b: DTime) -> bool {
    ||| a.year < b.year
    ||| a.year == b.year && a.month < b.month
    ||| a.year == b.year && a.month == b.month && a.day < b.day
    ||| a.year == b.year && a.month == b.month && a.day == b.day && a.hour < b.hour
    ||| a.year == b.year && a.month == b.month && a.day == b.day && a.hour == b.hour && a.minute
        < b.minute
    ||| a.year == b.year && a.month == b.month && a.day == b.day && a.hour == b.hour && a.minute
        == b.minute && a.second < b.second
}

/// A valid date lies within its year: from the year's first day to the next year's.
proof fn lemma_date_within_year(y: int, m: int, d: int)
    requires
        is_valid_date(y, m, d),
    ensures
        days_from_epoch(y, 1, 1) <= days_from_epoch(y, m, d) < days_from_epoch(y + 1, 1, 1),
{
    lemma_days_before_month_bounds(y, m, d);
    lemma_year_length(y);
}

/// Day numbers within about a billion years of 1970 fall in years that an `i32` holds.
proof fn lemma_year_fits_i32(n: int)
    requires
        -500_000_000_000 <= n <= 500_000_000_000,
    ensures
        i32::MIN <= date_of_day(n).0 <= i32::MAX,
{
    law_date_of_day(n);
    let (y, m, d) = date_of_day(n);
    lemma_date_within_year(y, m, d);
    assert(days_from_epoch(1970, 1, 1) == 0);
    if y > i32::MAX {
        lemma_year_start_monotonic(1970, y);
    }
    if y < i32::MIN {
        lemma_year_start_monotonic(y + 1, 1970);
    }
}

/// A valid date and time that comes before another is fewer seconds after 1970.
proof fn lemma_before_fewer_seconds(a: DTime, b: DTime)
    requires
        is_valid_date(a.year as int, a.month as int, a.day as int),
        is_valid_date(b.year as int, b.month as int, b.day as int),
        a.hour < 24 && a.minute < 60 && a.second < 60,
        b.hour < 24 && b.minute < 60 && b.second < 60,
        dtime_before(a, b),
    ensures
        unix_seconds(a) < unix_seconds(b),
{
    let (ya, ma, da) = (a.year as int, a.month as int, a.day as int);
    let (yb, mb, db) = (b.year as int, b.month as int, b.day as int);
    let day_a = days_from_epoch(ya, ma, da);
    let day_b = days_from_epoch(yb, mb, db);
    if ya < yb {
        lemma_date_within_year(ya, ma, da);
        lemma_date_within_year(yb, mb, db);
        lemma_year_start_monotonic(ya + 1, yb);
        assert(day_a < day_b);
    } else if ma < mb {
        lemma_days_before_month_bounds(ya, ma, da);
        assert(days_before_month(ya, ma + 1) <= days_before_month(ya, mb));
        assert(day_a < day_b);
    } else if da < db {
        assert(day_a < day_b);
    } else {
        assert(day_a == day_b);
    }
}

/// Within about a billion years of 1970 a later unix time gives a later date and time,
/// so there `from_unix` never gives one date and time for two unix times.
pub proof fn law_from_unix_increasing(t1: int, t2: int)
    requires
        -0x80_0000_0000_0000 <= t1 < t2 <= 0x80_0000_0000_0000,
    ensures
        dtime_before(DTime::spec_from_unix(t1), DTime::spec_from_unix(t2)),
        DTime::spec_from_unix(t1) != DTime::spec_from_unix(t2),
{
    lemma_year_fits_i32(t1 / 86400);
    lemma_year_fits_i32(t2 / 86400);
    law_from_unix_round_trip(t1);
    law_from_unix_round_trip(t2);
    let a = DTime::spec_from_unix(t1);
    let b = DTime::spec_from_unix(t2);
    if dtime_before(b, a) {
        lemma_before_fewer_seconds(b, a);
    } else if !dtime_before(a, b) {
        assert(a == b);
    }
}

/// The date-and-time text is 19 characters, `YYYY-MM-DD HH:MM:SS`, for years 0 to 9999.
pub proof fn law_dtime_text_layout(t: DTime)
    requires
        0 <= t.year <= 9999,
        t.month < 100 && t.day < 100 && t.hour < 100 && t.minute < 100 && t.second < 100,
    ensures
        dtime_text(t).len() == 19,
        dtime_text(t)[4] == '-' && dtime_text(t)[7] == '-' && dtime_text(t)[10] == ' '
            && dtime_text(t)[13] == ':' && dtime_text(t)[16] == ':',
{
    assert(pow10(4) == 10000 && pow10(2) == 100) by {
        reveal_with_fuel(pow10, 5);
    }
    lemma_decimal_len(t.year as nat, 4);
    lemma_decimal_len(t.month as nat, 2);
    lemma_decimal_len(t.day as nat, 2);
    lemma_decimal_len(t.hour as nat, 2);
    lemma_decimal_len(t.minute as nat, 2);
    lemma_decimal_len(t.second as nat, 2);
    assert(zero_padded(t.year as int, 4).len() == 4);
    assert(zero_padded(t.month as int, 2).len() == 2);
    assert(zero_padded(t.day as int, 2).len() == 2);
    assert(zero_padded(t.hour as int, 2).len() == 2);
    assert(zero_padded(t.minute as int, 2).len() == 2);
    assert(zero_padded(t.second as int, 2).len() == 2);
}

/// Whole days and the seconds into the last day, flooring toward negative infinity.
fn split_days(ts: i64) -> (r: (i64, i64))
    ensures
        r.0 == ts as int / 86400,
        r.1 == ts as int % 86400,
{
    let q = ts / 86400;
    let m = ts % 86400;
    if m < 0 {
        (q - 1, m + 86400)
    } else {
        (q, m)
    }
}

// ---------------------------------------------------------------------------
// Text form `YYYY-MM-DD HH:MM:SS`
// ---------------------------------------------------------------------------

/// The character of decimal digit `d` (0..=9).
pub open spec fn digit_char(d: int) -> char {
    if d == 0 { '0' }
    else if d == 1 { '1' }
    else if d == 2 { '2' }
    else if d == 3 { '3' }
    else if d == 4 { '4' }
    else if d == 5 { '5' }
    else if d == 6 { '6' }
    else if d == 7 { '7' }
    else if d == 8 { '8' }
    else { '9' }
}

/// The decimal digits of `n`, most significant first, without leading zeros.
pub open spec fn decimal(n: nat) -> Seq<char>
    decreases n,
{
    if n < 10 {
        seq![digit_char(n as int)]
    } else {
        decimal(n / 10) + seq![digit_char((n % 10) as int)]
    }
}

/// `count` zero characters.
pub open spec fn zeros(count: int) -> Seq<char> {
    Seq::new(if count > 0 { count as nat } else { 0 }, |i: int| '0')
}

/// `v` in decimal, zero-padded to at least `width` characters, the sign counted
/// in the width (as `format!("{:0width$}", v)` writes it).
pub open spec fn zero_padded(v: int, width: int) -> Seq<char> {
    if v < 0 {
        let digits = decimal((-v) as nat);
        seq!['-'] + zeros(width - 1 - digits.len()) + digits
    } else {
        let digits = decimal(v as nat);
        zeros(width - digits.len()) + digits
    }
}

/// The text `YYYY-MM-DD HH:MM:SS` of a date and time.
pub open spec fn dtime_text(t: DTime) -> Seq<char> {
    zero_padded(t.year as int, 4) + seq!['-'] + zero_padded(t.month as int, 2) + seq!['-']
        + zero_padded(t.day as int, 2) + seq![' '] + zero_padded(t.hour as int, 2) + seq![':']
        + zero_padded(t.minute as int, 2) + seq![':'] + zero_padded(t.second as int, 2)
}

/// The one-character text of decimal digit `d`.
fn digit_str(d: u32) -> (r: &'static str)
    requires
        d < 10,
    ensures
        r@ == seq![digit_char(d as int)],
{
    if d == 0 {
        proof { reveal_strlit("0"); }
        "0"
    } else if d == 1 {
        proof { reveal_strlit("1"); }
        "1"
    } else if d == 2 {
        proof { reveal_strlit("2"); }
        "2"
    } else if d == 3 {
        proof { reveal_strlit("3"); }
        "3"
    } else if d == 4 {
        proof { reveal_strlit("4"); }
        "4"
    } else if d == 5 {
        proof { reveal_strlit("5"); }
        "5"
    } else if d == 6 {
        proof { reveal_strlit("6"); }
        "6"
    } else if d == 7 {
        proof { reveal_strlit("7"); }
        "7"
    } else if d == 8 {
        proof { reveal_strlit("8"); }
        "8"
    } else {
        proof { reveal_strlit("9"); }
        "9"
    }
}

/// `10` to the power `k`.
spec fn pow10(k: nat) -> nat
    decreases k,
{
    if k == 0 {
        1
    } else {
        10 * pow10((k - 1) as nat)
    }
}

/// A number below `10^k` has at most `k` digits.
proof fn lemma_decimal_len(n: nat, k: nat)
    requires
        1 <= k,
        n < pow10(k),
    ensures
        1 <= decimal(n).len() <= k,
    decreases k,
{
    if n >= 10 {
        if k == 1 {
            assert(pow10(1) == 10) by {
                reveal_with_fuel(pow10, 2);
            }
        } else {
            lemma_decimal_len(n / 10, (k - 1) as nat);
        }
    }
}

/// Number of decimal digits of `n`.
fn decimal_len(n: u32) -> (r: usize)
    ensures
        r == decimal(n as nat).len(),
        1 <= r <= 10,
    decreases n,
{
    proof {
        assert(pow10(10) == 10_000_000_000) by {
            reveal_with_fuel(pow10, 11);
        }
        lemma_decimal_len(n as nat, 10);
    }
    if n >= 10 {
        decimal_len(n / 10) + 1
    } else {
        1
    }
}

/// The decimal digits of a number are ASCII.
proof fn lemma_decimal_ascii(n: nat)
    ensures
        is_ascii_chars(decimal(n)),
    decreases n,
{
    if n >= 10 {
        lemma_decimal_ascii(n / 10);
        assert forall|i: int| 0 <= i < decimal(n).len() implies '\0' <= #[trigger] decimal(n)[i]
            <= '\u{7f}' by {
            if i < decimal(n / 10).len() {
                assert(decimal(n)[i] == decimal(n / 10)[i]);
            }
        }
    }
}

/// The length of a zero-padded number with at most `k` digits.
proof fn lemma_zero_padded_len(v: int, width: int, k: nat)
    requires
        1 <= k,
        -(pow10(k) as int) < v < pow10(k),
        0 <= width,
    ensures
        zero_padded(v, width).len() <= (if width > k { width } else { k as int }) + (if v < 0 {
            1int
        } else {
            0
        }),
        is_ascii_chars(zero_padded(v, width)),
{
    if v < 0 {
        lemma_decimal_len((-v) as nat, k);
        lemma_decimal_ascii((-v) as nat);
        let digits = decimal((-v) as nat);
        let z = zeros(width - 1 - digits.len());
        assert(zero_padded(v, width) == seq!['-'] + z + digits);
        assert forall|i: int| 0 <= i < zero_padded(v, width).len() implies '\0'
            <= #[trigger] zero_padded(v, width)[i] <= '\u{7f}' by {
            if i >= 1 + z.len() {
                assert(zero_padded(v, width)[i] == digits[i - 1 - z.len()]);
            }
        }
    } else {
        lemma_decimal_len(v as nat, k);
        lemma_decimal_ascii(v as nat);
        let digits = decimal(v as nat);
        let z = zeros(width - digits.len());
        assert(zero_padded(v, width) == z + digits);
        assert forall|i: int| 0 <= i < zero_padded(v, width).len() implies '\0'
            <= #[trigger] zero_padded(v, width)[i] <= '\u{7f}' by {
            if i >= z.len() {
                assert(zero_padded(v, width)[i] == digits[i - z.len()]);
            }
        }
    }
}

/// Appends an ASCII piece to a buffer that holds the encoding of the ASCII text `text`.
fn put_ascii<const N: usize>(out: &mut StackBuffer<N>, piece: &str, Ghost(text): Ghost<Seq<char>>)
    requires
        old(out)@ == encode_utf8(text),
        is_ascii_chars(text),
        is_ascii_chars(piece@),
        text.len() + piece@.len() <= N,
    ensures
        final(out)@ == encode_utf8(text + piece@),
        is_ascii_chars(text + piece@),
{
    proof {
        is_ascii_chars_encode_utf8(text);
        is_ascii_chars_encode_utf8(piece@);
        lemma_encode_utf8_concat(text, piece@);
        assert forall|i: int| 0 <= i < (text + piece@).len() implies '\0' <= #[trigger] (text
            + piece@)[i] <= '\u{7f}' by {
            if i >= text.len() {
                assert((text + piece@)[i] == piece@[i - text.len()]);
            }
        }
    }
    let _ = out.write_str(piece);
}

/// Appends the decimal digits of `n`.
fn put_decimal<const N: usize>(out: &mut StackBuffer<N>, n: u32, Ghost(text): Ghost<Seq<char>>)
    requires
        old(out)@ == encode_utf8(text),
        is_ascii_chars(text),
        text.len() + decimal(n as nat).len() <= N,
    ensures
        final(out)@ == encode_utf8(text + decimal(n as nat)),
        is_ascii_chars(text + decimal(n as nat)),
    decreases n,
{
    let ghost before = text;
    if n >= 10 {
        put_decimal(out, n / 10, Ghost(text));
    }
    let ghost done = if n >= 10 { text + decimal((n / 10) as nat) } else { text };
    let d = digit_str(n % 10);
    proof {
        assert(decimal(n as nat) =~= if n >= 10 {
            decimal((n / 10) as nat) + d@
        } else {
            d@
        });
        assert(done + d@ =~= text + decimal(n as nat));
        assert(is_ascii_chars(d@));
    }
    put_ascii(out, d, Ghost(done));
}

/// Appends `v` zero-padded to `width` characters, the sign included.
fn put_zero_padded<const N: usize>(
    out: &mut StackBuffer<N>,
    v: i64,
    width: usize,
    Ghost(text): Ghost<Seq<char>>,
)
    requires
        -0x1_0000_0000 < v < 0x1_0000_0000,
        width <= 10,
        old(out)@ == encode_utf8(text),
        is_ascii_chars(text),
        text.len() + zero_padded(v as int, width as int).len() <= N,
    ensures
        final(out)@ == encode_utf8(text + zero_padded(v as int, width as int)),
        is_ascii_chars(text + zero_padded(v as int, width as int)),
{
    let negative = v < 0;
    let magnitude: u32 = if negative { (-v) as u32 } else { v as u32 };
    let digits = decimal_len(magnitude);
    let mut pad: usize = if negative {
        if width > digits { width - 1 - digits } else { 0 }
    } else {
        if width >= digits { width - digits } else { 0 }
    };
    let ghost total = pad;
    let ghost z = zeros(total as int);
    let ghost padded = zero_padded(v as int, width as int);
    proof {
        reveal_strlit("-");
        reveal_strlit("0");
        assert(padded =~= if negative {
            seq!['-'] + z + decimal(magnitude as nat)
        } else {
            z + decimal(magnitude as nat)
        });
    }
    let ghost mut written = text;
    if negative {
        proof {
            assert(text + "-"@ =~= text + seq!['-']);
        }
        put_ascii(out, "-", Ghost(text));
        proof {
            written = text + seq!['-'];
        }
    }
    let ghost start = written;
    while pad > 0
        invariant
            pad <= total,
            written == start + zeros(total - pad),
            out@ == encode_utf8(written),
            is_ascii_chars(written),
            start + z + decimal(magnitude as nat) == text + padded,
            z == zeros(total as int),
            (text + padded).len() <= N,
        decreases pad,
    {
        proof {
            reveal_strlit("0");
            assert("0"@ =~= seq!['0']);
            assert(zeros(total - pad) + seq!['0'] =~= zeros(total - pad + 1));
            assert((start + zeros(total - pad + 1)).len() <= (text + padded).len());
        }
        put_ascii(out, "0", Ghost(written));
        proof {
            written = written + seq!['0'];
        }
        pad = pad - 1;
    }
    proof {
        assert(zeros(total - 0) =~= z);
    }
    put_decimal(out, magnitude, Ghost(written));
}

/// Writes the text of `t` into an empty 32-byte buffer.
fn dtime_text_into(t: &DTime, out: &mut StackBuffer<32>)
    requires
        old(out)@ == Seq::<u8>::empty(),
    ensures
        final(out)@ == encode_utf8(dtime_text(*t)),
{
    assert(pow10(10) == 10_000_000_000 && pow10(3) == 1000) by {
        reveal_with_fuel(pow10, 11);
    }
    proof {
        reveal_strlit("-");
        reveal_strlit(" ");
        reveal_strlit(":");
        lemma_zero_padded_len(t.year as int, 4, 10);
        lemma_zero_padded_len(t.month as int, 2, 3);
        lemma_zero_padded_len(t.day as int, 2, 3);
        lemma_zero_padded_len(t.hour as int, 2, 3);
        lemma_zero_padded_len(t.minute as int, 2, 3);
        lemma_zero_padded_len(t.second as int, 2, 3);
        assert(encode_utf8(Seq::<char>::empty()) =~= Seq::<u8>::empty());
        assert(zero_padded(t.year as int, 4).len() <= 11);
        assert(zero_padded(t.month as int, 2).len() <= 3);
        assert(zero_padded(t.day as int, 2).len() <= 3);
        assert(zero_padded(t.hour as int, 2).len() <= 3);
        assert(zero_padded(t.minute as int, 2).len() <= 3);
        assert(zero_padded(t.second as int, 2).len() <= 3);
    }
    let ghost e = Seq::<char>::empty();
    let ghost t1 = e + zero_padded(t.year as int, 4);
    let ghost t2 = t1 + seq!['-'];
    let ghost t3 = t2 + zero_padded(t.month as int, 2);
    let ghost t4 = t3 + seq!['-'];
    let ghost t5 = t4 + zero_padded(t.day as int, 2);
    let ghost t6 = t5 + seq![' '];
    let ghost t7 = t6 + zero_padded(t.hour as int, 2);
    let ghost t8 = t7 + seq![':'];
    let ghost t9 = t8 + zero_padded(t.minute as int, 2);
    let ghost t10 = t9 + seq![':'];
    let ghost t11 = t10 + zero_padded(t.second as int, 2);
    assert(t11 =~= dtime_text(*t));
    assert(t11.len() <= 31);
    put_zero_padded(out, t.year as i64, 4, Ghost(e));
    assert(t1 + "-"@ =~= t2);
    put_ascii(out, "-", Ghost(t1));
    put_zero_padded(out, t.month as i64, 2, Ghost(t2));
    assert(t3 + "-"@ =~= t4);
    put_ascii(out, "-", Ghost(t3));
    put_zero_padded(out, t.day as i64, 2, Ghost(t4));
    assert(t5 + " "@ =~= t6);
    put_ascii(out, " ", Ghost(t5));
    put_zero_padded(out, t.hour as i64, 2, Ghost(t6));
    assert(t7 + ":"@ =~= t8);
    put_ascii(out, ":", Ghost(t7));
    put_zero_padded(out, t.minute as i64, 2, Ghost(t8));
    assert(t9 + ":"@ =~= t10);
    put_ascii(out, ":", Ghost(t9));
    put_zero_padded(out, t.second as i64, 2, Ghost(t10));
}

impl DTime {
    /// Writes the text `YYYY-MM-DD HH:MM:SS` (UTC) into a 32-byte stack buffer and returns
    /// it as a string slice of that buffer.
    pub fn text_into<'b>(&self, out: &'b mut StackBuffer<32>) -> (r: &'b str)
        ensures
            r@ == dtime_text(*self),
    {
        out.clear();
        dtime_text_into(self, out);
        proof {
            encode_utf8_valid_utf8(dtime_text(*self));
        }
        let r = out.as_str();
        proof {
            encode_utf8_decode_utf8(r@);
            encode_utf8_decode_utf8(dtime_text(*self));
        }
        r
    }

    /// The text `YYYY-MM-DD HH:MM:SS` (UTC), as `Display` writes it.
    pub fn formatted(&self) -> (r: String)
        ensures
            r@ == dtime_text(*self),
    {
        let mut out = StackBuffer::<32>::new();
        let text = self.text_into(&mut out);
        String::from_str(text)
    }
}

// ---------------------------------------------------------------------------
// The system clock
// ---------------------------------------------------------------------------

#[verifier::external_type_specification]
#[verifier::external_body]
pub struct ExSystemTime(std::time::SystemTime);

#[verifier::external_type_specification]
#[verifier::external_body]
pub struct ExSystemTimeError(std::time::SystemTimeError);

/// `SystemTime::now`: the current time of the system clock; nothing is claimed of it.
#[verifier::external_body]
fn clock_now() -> std::time::SystemTime {
    std::time::SystemTime::now()
}

/// `SystemTime::duration_since(UNIX_EPOCH)`: the time elapsed since the unix epoch, or an
/// error when the given time lies before the epoch; nothing is claimed of the outcome.
#[verifier::external_body]
fn since_unix_epoch(t: &std::time::SystemTime) -> Result<
    core::time::Duration,
    std::time::SystemTimeError,
> {
    t.duration_since(std::time::UNIX_EPOCH)
}

/// `SystemTimeError::duration`: how far before the epoch the time lay; nothing is claimed of it.
#[verifier::external_body]
fn time_error_duration(e: &std::time::SystemTimeError) -> core::time::Duration {
    e.duration()
}

/// `Duration::as_secs`: the number of whole seconds of a duration; nothing is claimed of it,
/// as the duration itself is opaque here.
#[verifier::external_body]
fn duration_secs(d: &core::time::Duration) -> u64 {
    d.as_secs()
}

/// The unix time of a clock reading: `secs` whole seconds after the epoch, or before it.
/// Seconds after the epoch convert as `as i64` does; seconds before it are negated,
/// and a reading further back than `i64` reaches gives `i64::MIN`.
pub open spec fn reading_timestamp(after_epoch: bool, secs: u64) -> i64 {
    if after_epoch {
        secs as i64
    } else if secs <= i64::MAX {
        (-(secs as int)) as i64
    } else {
        i64::MIN
    }
}

/// The unix time of a clock reading (see `reading_timestamp`).
pub fn timestamp_of_reading(after_epoch: bool, secs: u64) -> (ts: i64)
    ensures
        ts == reading_timestamp(after_epoch, secs),
{
    if after_epoch {
        secs as i64
    } else if secs <= i64::MAX as u64 {
        -(secs as i64)
    } else {
        i64::MIN
    }
}

impl DTime {
    /// The current UTC date and time.
    ///
    /// A clock set before 1970 gives the date and time that many whole seconds before the epoch.
    pub fn now() -> (r: Self)
        ensures
            exists|after_epoch: bool, secs: u64|
                r == #[trigger] Self::spec_from_unix(
                    reading_timestamp(after_epoch, secs) as int,
                ),
    {
        let t = clock_now();
        let (after_epoch, secs) = match since_unix_epoch(&t) {
            Ok(elapsed) => (true, duration_secs(&elapsed)),
            Err(e) => (false, duration_secs(&time_error_duration(&e))),
        };
        let r = Self::from_unix(timestamp_of_reading(after_epoch, secs));
        assert(r == Self::spec_from_unix(reading_timestamp(after_epoch, secs) as int));
        r
    }
}

} // verus!
