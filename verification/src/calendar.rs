//! Calendar dates from the days since 1970-01-01, and timestamps as text.

use vstd::prelude::*;
use vstd::string::*;

use crate::reading;
use crate::text;

verus! {

/// Leap year of the Gregorian calendar.
pub open spec fn leap(y: int) -> bool {
    (y % 4 == 0 && y % 100 != 0) || y % 400 == 0
}

/// Number of days in a year.
pub open spec fn year_days(y: int) -> int {
    if leap(y) {
        366
    } else {
        365
    }
}

/// Number of days from 1970-01-01 to the first day of a year.
pub open spec fn days_before_year(y: int) -> int
    decreases y,
{
    if y <= 1970 {
        0
    } else {
        days_before_year(y - 1) + year_days(y - 1)
    }
}

/// Number of days in a month, counted from one.
pub open spec fn month_days(y: int, m: int) -> int {
    if m == 2 {
        if leap(y) {
            29
        } else {
            28
        }
    } else if m == 4 || m == 6 || m == 9 || m == 11 {
        30
    } else {
        31
    }
}

/// Number of days in a year before the first day of a month.
pub open spec fn days_before_month(y: int, m: int) -> int
    decreases m,
{
    if m <= 1 {
        0
    } else {
        days_before_month(y, m - 1) + month_days(y, m - 1)
    }
}

/// Day `d` of month `m` of year `y` is a date of the calendar, not before
/// 1970-01-01.
pub open spec fn is_date(y: int, m: int, d: int) -> bool {
    1970 <= y && 1 <= m <= 12 && 1 <= d <= month_days(y, m)
}

/// Number of days from 1970-01-01 to a date.
pub open spec fn day_number(y: int, m: int, d: int) -> int {
    days_before_year(y) + days_before_month(y, m) + d - 1
}

/// The days before each month, written out.
proof fn lemma_months(y: int)
    ensures
        days_before_month(y, 1) == 0,
        days_before_month(y, 2) == 31,
        days_before_month(y, 3) == 31 + month_days(y, 2),
        days_before_month(y, 4) == 62 + month_days(y, 2),
        days_before_month(y, 5) == 92 + month_days(y, 2),
        days_before_month(y, 6) == 123 + month_days(y, 2),
        days_before_month(y, 7) == 153 + month_days(y, 2),
        days_before_month(y, 8) == 184 + month_days(y, 2),
        days_before_month(y, 9) == 215 + month_days(y, 2),
        days_before_month(y, 10) == 245 + month_days(y, 2),
        days_before_month(y, 11) == 276 + month_days(y, 2),
        days_before_month(y, 12) == 306 + month_days(y, 2),
        year_days(y) == 337 + month_days(y, 2),
{
    reveal_with_fuel(days_before_month, 13);
}

proof fn lemma_years_ordered(a: int, b: int)
    requires
        1970 <= a < b,
    ensures
        days_before_year(a) + year_days(a) <= days_before_year(b),
    decreases b,
{
    if a < b - 1 {
        lemma_years_ordered(a, b - 1);
    }
}

proof fn lemma_months_ordered(y: int, a: int, b: int)
    requires
        1 <= a < b <= 13,
    ensures
        days_before_month(y, a) + month_days(y, a) <= days_before_month(y, b),
    decreases b,
{
    if a < b - 1 {
        lemma_months_ordered(y, a, b - 1);
    }
}

/// A day has one date: dates with the same day number are the same.
pub proof fn law_dates_are_unique(y1: int, m1: int, d1: int, y2: int, m2: int, d2: int)
    requires
        is_date(y1, m1, d1),
        is_date(y2, m2, d2),
        day_number(y1, m1, d1) == day_number(y2, m2, d2),
    ensures
        y1 == y2 && m1 == m2 && d1 == d2,
{
    lemma_months(y1);
    lemma_months(y2);
    lemma_day_in_year(y1, m1, d1);
    lemma_day_in_year(y2, m2, d2);
    if y1 < y2 {
        lemma_years_ordered(y1, y2);
    } else if y2 < y1 {
        lemma_years_ordered(y2, y1);
    }
    if m1 < m2 {
        lemma_months_ordered(y1, m1, m2);
    } else if m2 < m1 {
        lemma_months_ordered(y1, m2, m1);
    }
}

proof fn lemma_day_in_year(y: int, m: int, d: int)
    requires
        is_date(y, m, d),
    ensures
        0 <= days_before_month(y, m) + d - 1 < year_days(y),
{
    lemma_months(y);
}

/// Convert days since 1970-01-01 to the year and the day in the year, counted
/// from zero.
pub fn days_to_year(days: u64) -> (r: (u64, u64))
    ensures
        r.0 >= 1970,
        r.1 < year_days(r.0 as int),
        days_before_year(r.0 as int) + r.1 == days,
{
    let mut rest: u64 = days;
    let mut y: u64 = 1970;
    loop
        invariant
            y >= 1970,
            days_before_year(y as int) + rest == days,
            365 * (y - 1970) <= days - rest,
        decreases rest,
    {
        let is_leap: bool = (y % 4 == 0 && y % 100 != 0) || y % 400 == 0;
        let length: u64 = if is_leap {
            366
        } else {
            365
        };
        if rest < length {
            return (y, rest);
        }
        rest = rest - length;
        y = y + 1;
    }
}

/// The month and the day of a day in a year.
pub fn month_and_day(year: u64, day_in_year: u64) -> (r: (u64, u64))
    requires
        day_in_year < year_days(year as int),
    ensures
        1 <= r.0 <= 12,
        1 <= r.1 <= month_days(year as int, r.0 as int),
        days_before_month(year as int, r.0 as int) + r.1 - 1 == day_in_year,
{
    let is_leap: bool = (year % 4 == 0 && year % 100 != 0) || year % 400 == 0;
    let mut month: u64 = 1;
    let mut rest: u64 = day_in_year;
    proof {
        lemma_months(year as int);
    }
    loop
        invariant
            1 <= month <= 12,
            is_leap == leap(year as int),
            day_in_year < year_days(year as int),
            days_before_month(year as int, month as int) + rest == day_in_year,
        decreases 12 - month,
    {
        let length: u64 = if month == 2 {
            if is_leap {
                29
            } else {
                28
            }
        } else if month == 4 || month == 6 || month == 9 || month == 11 {
            30
        } else {
            31
        };
        if rest < length {
            return (month, rest + 1);
        }
        proof {
            lemma_months(year as int);
        }
        rest = rest - length;
        month = month + 1;
    }
}

/// Leap days before the first day of year `n + 1`, counted from year zero.
spec fn leap_days(n: int) -> int {
    n / 4 - n / 100 + n / 400
}

proof fn lemma_leap_days(y: int)
    requires
        y >= 1,
    ensures
        leap_days(y) - leap_days(y - 1) == (if leap(y) {
            1int
        } else {
            0int
        }),
{
    assert(y / 4 - (y - 1) / 4 == (if y % 4 == 0 {
        1int
    } else {
        0int
    }));
    assert(y / 100 - (y - 1) / 100 == (if y % 100 == 0 {
        1int
    } else {
        0int
    }));
    assert(y / 400 - (y - 1) / 400 == (if y % 400 == 0 {
        1int
    } else {
        0int
    }));
}

proof fn lemma_year_closed_form(y: int)
    requires
        y >= 1970,
    ensures
        days_before_year(y) == 365 * (y - 1970) + leap_days(y - 1) - 477,
    decreases y,
{
    if y > 1970 {
        lemma_year_closed_form(y - 1);
        lemma_leap_days(y - 1);
    }
}

/// The year of a day within a cycle of 400 years that starts in March.
proof fn lemma_year_of_era(doe: u32)
    by (bit_vector)
    requires
        doe <= 146096,
    ensures
        doe / 1460 <= doe + doe / 36524,
        doe / 146096 <= doe - doe / 1460 + doe / 36524,
        (doe - doe / 1460 + doe / 36524 - doe / 146096) / 365 <= 399,
        ({
            let yoe = (doe - doe / 1460 + doe / 36524 - doe / 146096) / 365;
            &&& 365 * yoe + yoe / 4 - yoe / 100 <= doe
            &&& doe - (365 * yoe + yoe / 4 - yoe / 100) <= 365
            &&& doe < 365 * (yoe + 1) + (yoe + 1) / 4 - (yoe + 1) / 100 + (yoe + 1) / 400
        }),
{
}

/// The first of March of year `y`, counted in days from the first of March of
/// year zero.
spec fn march_start(y: int) -> int {
    365 * y + leap_days(y)
}

proof fn lemma_march(y: int)
    requires
        y >= 1970,
    ensures
        days_before_year(y) + days_before_month(y, 3) + 719468 == march_start(y),
{
    lemma_year_closed_form(y);
    lemma_leap_days(y);
    lemma_months(y);
}

/// A cycle of 400 years has 146097 days.
proof fn lemma_era(era: int, yoe: int)
    requires
        era >= 0,
        0 <= yoe <= 400,
    ensures
        march_start(yoe + 400 * era) == 146097 * era + 365 * yoe + yoe / 4 - yoe / 100 + yoe / 400,
{
    assert((yoe + 400 * era) / 4 == yoe / 4 + 100 * era);
    assert((yoe + 400 * era) / 100 == yoe / 100 + 4 * era);
    assert((yoe + 400 * era) / 400 == yoe / 400 + era);
}

/// Days from the first of March to the first of the month that is `mp` months
/// later.
spec fn month_start(mp: int) -> int {
    (153 * mp + 2) / 5
}

/// The formula for the months, written out.
proof fn lemma_month_starts()
    ensures
        month_start(0) == 0,
        month_start(1) == 31,
        month_start(2) == 61,
        month_start(3) == 92,
        month_start(4) == 122,
        month_start(5) == 153,
        month_start(6) == 184,
        month_start(7) == 214,
        month_start(8) == 245,
        month_start(9) == 275,
        month_start(10) == 306,
        month_start(11) == 337,
        month_start(12) == 367,
{
}

/// The month of a day in a year that starts in March.
proof fn lemma_month_of_day(doy: int, mp: int)
    requires
        0 <= doy <= 365,
        mp == (5 * doy + 2) / 153,
    ensures
        0 <= mp <= 11,
        month_start(mp) <= doy < month_start(mp + 1),
{
}

/// The date of day `doy` of the year that starts in March of year `y`.
proof fn lemma_civil(y: int, doy: int, mp: int)
    requires
        y >= 1969,
        y == 1969 ==> doy >= 306,
        0 <= doy < 365 + (if leap(y + 1) {
            1int
        } else {
            0int
        }),
        mp == (5 * doy + 2) / 153,
    ensures
        month_start(mp) <= doy,
        ({
            let d = doy - month_start(mp) + 1;
            let m = if mp < 10 {
                mp + 3
            } else {
                mp - 9
            };
            let year = if m <= 2 {
                y + 1
            } else {
                y
            };
            is_date(year, m, d) && day_number(year, m, d) + 719468 == march_start(y) + doy
        }),
{
    lemma_month_of_day(doy, mp);
    lemma_month_starts();
    lemma_months(y);
    lemma_months(y + 1);
    if y == 1969 {
        assert(march_start(1969) == 719162);
    } else {
        lemma_march(y);
    }
}

/// Convert days since 1970-01-01 to (year, month, day).
pub fn days_to_ymd(days: u64) -> (r: (u64, u64, u64))
    requires
        days + 719468 <= u64::MAX,
    ensures
        is_date(r.0 as int, r.1 as int, r.2 as int),
        day_number(r.0 as int, r.1 as int, r.2 as int) == days,
{
    let z: u64 = days + 719468;
    let era: u64 = z / 146097;
    let doe: u64 = z - era * 146097;
    proof {
        lemma_year_of_era(doe as u32);
    }
    let yoe: u64 = (doe - doe / 1460 + doe / 36524 - doe / 146096) / 365;
    let y: u64 = yoe + era * 400;
    let doy: u64 = doe - (365 * yoe + yoe / 4 - yoe / 100);
    let mp: u64 = (5 * doy + 2) / 153;
    proof {
        lemma_day_of_march_year(z as int, era as int, yoe as int, doy as int);
        lemma_civil(y as int, doy as int, mp as int);
    }
    let d: u64 = doy - (153 * mp + 2) / 5 + 1;
    let m: u64 = if mp < 10 {
        mp + 3
    } else {
        mp - 9
    };
    let year: u64 = if m <= 2 {
        y + 1
    } else {
        y
    };
    (year, m, d)
}

/// The year that starts in March, and the day in it, of day `z`.
proof fn lemma_day_of_march_year(z: int, era: int, yoe: int, doy: int)
    requires
        z >= 719468,
        era >= 0,
        0 <= yoe <= 399,
        0 <= doy,
        z == 146097 * era + 365 * yoe + yoe / 4 - yoe / 100 + doy,
        z - 146097 * era < 365 * (yoe + 1) + (yoe + 1) / 4 - (yoe + 1) / 100 + (yoe + 1) / 400,
    ensures
        march_start(yoe + 400 * era) + doy == z,
        yoe + 400 * era >= 1969,
        yoe + 400 * era == 1969 ==> doy >= 306,
        doy < 365 + (if leap(yoe + 400 * era + 1) {
            1int
        } else {
            0int
        }),
{
    let y = yoe + 400 * era;
    lemma_era(era, yoe);
    lemma_era(era, yoe + 1);
    lemma_leap_days(y + 1);
    assert(march_start(1969) == 719162);
    if y < 1969 {
        lemma_march_ordered(y + 1, 1969);
    }
}

proof fn lemma_march_ordered(a: int, b: int)
    requires
        0 <= a <= b,
    ensures
        march_start(a) <= march_start(b),
    decreases b,
{
    if a < b {
        lemma_march_ordered(a, b - 1);
        lemma_leap_days(b);
    }
}

/// The date of a day, as year, month and day.
pub open spec fn date_of(days: int) -> (int, int, int) {
    choose|t: (int, int, int)| #[trigger]
        is_date(t.0, t.1, t.2) && day_number(t.0, t.1, t.2) == days
}

/// A date with the right day number is the date of the day.
pub proof fn lemma_date_of(days: int, y: int, m: int, d: int)
    requires
        is_date(y, m, d),
        day_number(y, m, d) == days,
    ensures
        date_of(days) == (y, m, d),
{
    let t = (y, m, d);
    assert(is_date(t.0, t.1, t.2) && day_number(t.0, t.1, t.2) == days);
    let u = date_of(days);
    law_dates_are_unique(u.0, u.1, u.2, y, m, d);
}

/// The date of a timestamp, and the hour, minute and second of the day.
fn split_time(secs: u64) -> (r: (u64, u64, u64, u64, u64, u64))
    ensures
        (r.0 as int, r.1 as int, r.2 as int) == date_of(secs as int / 86400),
        is_date(r.0 as int, r.1 as int, r.2 as int),
        r.3 == secs as int % 86400 / 3600,
        r.4 == secs as int % 3600 / 60,
        r.5 == secs as int % 60,
{
    let (year, day_in_year) = days_to_year(secs / 86400);
    let (month, day) = month_and_day(year, day_in_year);
    proof {
        lemma_date_of(secs as int / 86400, year as int, month as int, day as int);
    }
    (year, month, day, (secs % 86400) / 3600, (secs % 3600) / 60, secs % 60)
}

/// `YYYY-MM-DDTHH:MM:SS+00:00`.
pub open spec fn iso8601_text(secs: nat) -> Seq<char> {
    let (y, m, d) = date_of(secs as int / 86400);
    text::zero_padded(y as nat, 4) + "-"@ + text::zero_padded(m as nat, 2) + "-"@
        + text::zero_padded(d as nat, 2) + "T"@ + text::zero_padded(
        secs % 86400 / 3600,
        2,
    ) + ":"@ + text::zero_padded(secs % 3600 / 60, 2) + ":"@ + text::zero_padded(
        secs % 60,
        2,
    ) + "+00:00"@
}

/// A timestamp in seconds since 1970 as ISO 8601 UTC, such as
/// `2024-01-15T12:30:45+00:00`.
pub fn iso8601(secs: u64) -> (s: String)
    ensures
        s@ == iso8601_text(secs as nat),
{
    let (year, month, day, hour, minute, second) = split_time(secs);
    let mut s: String = String::new();
    text::push_zero_padded(&mut s, year, 4);
    assert(s@ =~= text::zero_padded(year as nat, 4));
    s.append("-");
    text::push_zero_padded(&mut s, month, 2);
    s.append("-");
    text::push_zero_padded(&mut s, day, 2);
    s.append("T");
    text::push_zero_padded(&mut s, hour, 2);
    s.append(":");
    text::push_zero_padded(&mut s, minute, 2);
    s.append(":");
    text::push_zero_padded(&mut s, second, 2);
    s.append("+00:00");
    s
}

/// `YYYYMMDDTHHMMSSz`.
pub open spec fn stamp_text(secs: nat) -> Seq<char> {
    let (y, m, d) = date_of(secs as int / 86400);
    text::zero_padded(y as nat, 4) + text::zero_padded(m as nat, 2) + text::zero_padded(
        d as nat,
        2,
    ) + "T"@ + text::zero_padded(secs % 86400 / 3600, 2) + text::zero_padded(
        secs % 3600 / 60,
        2,
    ) + text::zero_padded(secs % 60, 2) + "z"@
}

/// A timestamp in seconds since 1970 as a stamp for file names, such as
/// `20240115T123045z`.
pub fn stamp(secs: u64) -> (s: String)
    ensures
        s@ == stamp_text(secs as nat),
{
    let (year, month, day, hour, minute, second) = split_time(secs);
    let mut s: String = String::new();
    text::push_zero_padded(&mut s, year, 4);
    assert(s@ =~= text::zero_padded(year as nat, 4));
    text::push_zero_padded(&mut s, month, 2);
    text::push_zero_padded(&mut s, day, 2);
    s.append("T");
    text::push_zero_padded(&mut s, hour, 2);
    text::push_zero_padded(&mut s, minute, 2);
    text::push_zero_padded(&mut s, second, 2);
    s.append("z");
    s
}

/// `YYYY-MM-DD`.
pub open spec fn ymd_text(secs: nat) -> Seq<char> {
    let (y, m, d) = date_of(secs as int / 86400);
    text::zero_padded(y as nat, 4) + "-"@ + text::zero_padded(m as nat, 2) + "-"@
        + text::zero_padded(d as nat, 2)
}

/// The date of a timestamp in seconds since 1970, such as `2024-01-15`.
pub fn ymd(secs: u64) -> (s: String)
    ensures
        s@ == ymd_text(secs as nat),
{
    let (year, month, day) = days_to_ymd(secs / 86400);
    proof {
        lemma_date_of(secs as int / 86400, year as int, month as int, day as int);
    }
    let mut s: String = String::new();
    text::push_zero_padded(&mut s, year, 4);
    assert(s@ =~= text::zero_padded(year as nat, 4));
    s.append("-");
    text::push_zero_padded(&mut s, month, 2);
    s.append("-");
    text::push_zero_padded(&mut s, day, 2);
    s
}

/// The name of a day of the week, Sunday being zero.
pub open spec fn weekday_name(w: int) -> Seq<char> {
    if w == 0 {
        "Sun"@
    } else if w == 1 {
        "Mon"@
    } else if w == 2 {
        "Tue"@
    } else if w == 3 {
        "Wed"@
    } else if w == 4 {
        "Thu"@
    } else if w == 5 {
        "Fri"@
    } else {
        "Sat"@
    }
}

/// The name of a month, January being one.
pub open spec fn month_name(m: int) -> Seq<char> {
    if m == 1 {
        "Jan"@
    } else if m == 2 {
        "Feb"@
    } else if m == 3 {
        "Mar"@
    } else if m == 4 {
        "Apr"@
    } else if m == 5 {
        "May"@
    } else if m == 6 {
        "Jun"@
    } else if m == 7 {
        "Jul"@
    } else if m == 8 {
        "Aug"@
    } else if m == 9 {
        "Sep"@
    } else if m == 10 {
        "Oct"@
    } else if m == 11 {
        "Nov"@
    } else {
        "Dec"@
    }
}

/// `Www, DD Mmm YYYY HH:MM:SS +0000`. The first of January 1970 was a Thursday.
pub open spec fn rfc2822_text(secs: nat) -> Seq<char> {
    let (y, m, d) = date_of(secs as int / 86400);
    weekday_name((secs as int / 86400 + 4) % 7) + ", "@ + text::zero_padded(d as nat, 2) + " "@
        + month_name(m) + " "@ + text::zero_padded(y as nat, 4) + " "@ + text::zero_padded(
        secs % 86400 / 3600,
        2,
    ) + ":"@ + text::zero_padded(secs % 3600 / 60, 2) + ":"@ + text::zero_padded(secs % 60, 2)
        + " +0000"@
}

/// A timestamp in seconds since 1970 as the value of a `Date:` header, such as
/// `Mon, 01 Jan 2024 00:00:00 +0000`.
pub fn format_rfc2822(secs: u64) -> (s: String)
    ensures
        s@ == rfc2822_text(secs as nat),
{
    let (year, month, day, hour, minute, second) = split_time(secs);
    let weekday: u64 = (secs / 86400 + 4) % 7;
    let day_name: &str = if weekday == 0 {
        "Sun"
    } else if weekday == 1 {
        "Mon"
    } else if weekday == 2 {
        "Tue"
    } else if weekday == 3 {
        "Wed"
    } else if weekday == 4 {
        "Thu"
    } else if weekday == 5 {
        "Fri"
    } else {
        "Sat"
    };
    let name_of_month: &str = if month == 1 {
        "Jan"
    } else if month == 2 {
        "Feb"
    } else if month == 3 {
        "Mar"
    } else if month == 4 {
        "Apr"
    } else if month == 5 {
        "May"
    } else if month == 6 {
        "Jun"
    } else if month == 7 {
        "Jul"
    } else if month == 8 {
        "Aug"
    } else if month == 9 {
        "Sep"
    } else if month == 10 {
        "Oct"
    } else if month == 11 {
        "Nov"
    } else {
        "Dec"
    };
    let mut s: String = String::from_str(day_name);
    s.append(", ");
    text::push_zero_padded(&mut s, day, 2);
    s.append(" ");
    s.append(name_of_month);
    s.append(" ");
    text::push_zero_padded(&mut s, year, 4);
    s.append(" ");
    text::push_zero_padded(&mut s, hour, 2);
    s.append(":");
    text::push_zero_padded(&mut s, minute, 2);
    s.append(":");
    text::push_zero_padded(&mut s, second, 2);
    s.append(" +0000");
    s
}

/// The whole seconds in a number of nanoseconds, as far as 64 bits hold them.
pub open spec fn seconds_in(nanos: nat) -> nat {
    if nanos / 1_000_000_000 <= u64::MAX {
        nanos / 1_000_000_000
    } else {
        u64::MAX as nat
    }
}

/// The whole seconds in a number of nanoseconds, as far as 64 bits hold them.
pub fn whole_seconds(nanos: u128) -> (secs: u64)
    ensures
        secs == seconds_in(nanos as nat),
{
    let secs: u128 = nanos / 1_000_000_000;
    if secs <= u64::MAX as u128 {
        secs as u64
    } else {
        u64::MAX
    }
}

/// The number of days from 1970-01-01 to a date, counted in years that start in
/// March, whose months have 31 and 30 days in a fixed pattern, and which end with
/// the leap day: every fourth year has one, of the hundredth ones every fourth.
pub open spec fn civil_day(y: int, m: int, d: int) -> int {
    let year = if m <= 2 {
        y - 1
    } else {
        y
    };
    let month = (m + 9) % 12;
    365 * year + year / 4 - year / 100 + year / 400 + (153 * month + 2) / 5 + d - 1 - 719468
}

/// The days are numbered as in the Gregorian calendar.
#[verifier::rlimit(40)]
pub proof fn law_days_are_gregorian(y: int, m: int, d: int)
    requires
        is_date(y, m, d),
    ensures
        day_number(y, m, d) == civil_day(y, m, d),
        d <= 31,
        m == 2 ==> d <= 29,
{
    lemma_months(y);
    lemma_year_closed_form(y);
    lemma_leap_days(y);
    lemma_month_starts();
    lemma_march(y);
    assert(march_start(y) == 365 * y + y / 4 - y / 100 + y / 400);
    let p = y - 1;
    assert(leap_days(p) == p / 4 - p / 100 + p / 400);
}

/// Every day has a date.
proof fn lemma_every_day_has_a_date(days: int)
    requires
        days >= 0,
    ensures
        ({
            let t = date_of(days);
            is_date(t.0, t.1, t.2) && day_number(t.0, t.1, t.2) == days
        }),
    decreases days,
{
    let t = if days == 0 {
        (1970int, 1int, 1int)
    } else {
        lemma_every_day_has_a_date(days - 1);
        let (y, m, d) = date_of(days - 1);
        if d < month_days(y, m) {
            (y, m, d + 1)
        } else if m < 12 {
            (y, m + 1, 1int)
        } else {
            (y + 1, 1int, 1int)
        }
    };
    lemma_months(t.0);
    lemma_months(t.0 - 1);
    assert(is_date(t.0, t.1, t.2) && day_number(t.0, t.1, t.2) == days);
}

/// The second of the day, from hours, minutes and seconds that are in range.
pub open spec fn second_of_day(hour: nat, minute: nat, second: nat) -> Option<nat> {
    if hour < 24 && minute < 60 && second < 60 {
        Some(3600 * hour + 60 * minute + second)
    } else {
        None
    }
}

/// The second that a date and a time name.
pub open spec fn moment(y: nat, m: nat, d: nat, hour: nat, minute: nat, second: nat) -> Option<
    int,
> {
    match second_of_day(hour, minute, second) {
        Some(t) => if 1 <= m <= 12 && 1 <= d <= 31 {
            Some(86400 * civil_day(y as int, m as int, d as int) + t)
        } else {
            None
        },
        None => None,
    }
}

/// The pieces of a timestamp.
proof fn lemma_moment(secs: nat)
    ensures
        ({
            let (y, m, d) = date_of(secs as int / 86400);
            &&& y >= 1970 && 1 <= m <= 12 && 1 <= d <= 31
            &&& moment(
                y as nat,
                m as nat,
                d as nat,
                secs % 86400 / 3600,
                secs % 3600 / 60,
                secs % 60,
            ) == Some(secs as int)
            &&& secs % 86400 / 3600 < 24
            &&& secs % 3600 / 60 < 60
        }),
{
    let days = secs as int / 86400;
    lemma_every_day_has_a_date(days);
    let (y, m, d) = date_of(days);
    law_days_are_gregorian(y, m, d);
    lemma_clock(secs);
}

proof fn lemma_clock(secs: nat)
    ensures
        86400 * (secs as int / 86400) + (3600 * (secs % 86400 / 3600) + 60 * (secs % 3600 / 60)
            + secs % 60) == secs,
        secs % 86400 / 3600 < 24,
        secs % 3600 / 60 < 60,
        secs % 60 < 60,
{
    let t = (secs % 86400) as int;
    assert(secs % 3600 == t % 3600);
    assert(secs % 60 == t % 60);
}

/// What a reader makes of `YYYY-MM-DD`, where the year may have more digits.
pub open spec fn read_ymd(s: Seq<char>) -> (nat, nat, nat) {
    let n = s.len() as int;
    (
        reading::number_at(s, 0, n - 6),
        reading::number_at(s, n - 5, n - 3),
        reading::number_at(s, n - 2, n),
    )
}

/// A reader of a date finds the day of the timestamp.
pub proof fn law_dates_read_back(secs: nat)
    ensures
        ({
            let s = ymd_text(secs);
            let (y, m, d) = read_ymd(s);
            &&& s.len() >= 10
            &&& s[s.len() - 3] == '-' && s[s.len() - 6] == '-'
            &&& moment(y, m, d, 0, 0, 0) == Some(secs as int - secs as int % 86400)
        }),
{
    reveal_strlit("-");
    lemma_moment(secs);
    let (y, m, d) = date_of(secs as int / 86400);
    let a = text::zero_padded(y as nat, 4);
    let b = text::zero_padded(m as nat, 2);
    let c = text::zero_padded(d as nat, 2);
    reading::law_padded_decimals_read_back(y as nat, 4);
    reading::law_padded_decimals_read_back(m as nat, 2);
    reading::law_padded_decimals_read_back(d as nat, 2);
    let s = ymd_text(secs);
    let n = s.len() as int;
    assert(s.subrange(0, n - 6) =~= a);
    assert(s.subrange(n - 5, n - 3) =~= b);
    assert(s.subrange(n - 2, n) =~= c);
}

/// The second that `YYYY-MM-DDTHH:MM:SS+00:00` names, where the year may have more
/// digits.
pub open spec fn read_iso8601(s: Seq<char>) -> Option<int> {
    let n = s.len() as int;
    if n >= 25 && s[n - 6] == '+' && s[n - 9] == ':' && s[n - 12] == ':' && s[n - 15]
        == 'T' && s[n - 18] == '-' && s[n - 21] == '-' {
        moment(
            reading::number_at(s, 0, n - 21),
            reading::number_at(s, n - 20, n - 18),
            reading::number_at(s, n - 17, n - 15),
            reading::number_at(s, n - 14, n - 12),
            reading::number_at(s, n - 11, n - 9),
            reading::number_at(s, n - 8, n - 6),
        )
    } else {
        None
    }
}

/// A reader of an ISO 8601 timestamp finds the second that it was made of.
#[verifier::rlimit(40)]
pub proof fn law_iso8601_reads_back(secs: nat)
    ensures
        read_iso8601(iso8601_text(secs)) == Some(secs as int),
{
    reveal_strlit("-");
    reveal_strlit("T");
    reveal_strlit(":");
    reveal_strlit("+00:00");
    lemma_moment(secs);
    let (y, m, d) = date_of(secs as int / 86400);
    let a = text::zero_padded(y as nat, 4);
    let b = text::zero_padded(m as nat, 2);
    let c = text::zero_padded(d as nat, 2);
    let e = text::zero_padded(secs % 86400 / 3600, 2);
    let f = text::zero_padded(secs % 3600 / 60, 2);
    let g = text::zero_padded(secs % 60, 2);
    reading::law_padded_decimals_read_back(y as nat, 4);
    reading::law_padded_decimals_read_back(m as nat, 2);
    reading::law_padded_decimals_read_back(d as nat, 2);
    reading::law_padded_decimals_read_back(secs % 86400 / 3600, 2);
    reading::law_padded_decimals_read_back(secs % 3600 / 60, 2);
    reading::law_padded_decimals_read_back(secs % 60, 2);
    let s = iso8601_text(secs);
    let n = s.len() as int;
    assert(n == a.len() + 21);
    assert(s.subrange(0, n - 21) =~= a);
    assert(s.subrange(n - 20, n - 18) =~= b);
    assert(s.subrange(n - 17, n - 15) =~= c);
    assert(s.subrange(n - 14, n - 12) =~= e);
    assert(s.subrange(n - 11, n - 9) =~= f);
    assert(s.subrange(n - 8, n - 6) =~= g);
}

/// The second that `YYYYMMDDTHHMMSSz` names, where the year may have more digits.
pub open spec fn read_stamp(s: Seq<char>) -> Option<int> {
    let n = s.len() as int;
    if n >= 16 && s[n - 1] == 'z' && s[n - 8] == 'T' {
        moment(
            reading::number_at(s, 0, n - 12),
            reading::number_at(s, n - 12, n - 10),
            reading::number_at(s, n - 10, n - 8),
            reading::number_at(s, n - 7, n - 5),
            reading::number_at(s, n - 5, n - 3),
            reading::number_at(s, n - 3, n - 1),
        )
    } else {
        None
    }
}

/// A reader of a stamp finds the second that it was made of.
#[verifier::rlimit(40)]
pub proof fn law_stamps_read_back(secs: nat)
    ensures
        read_stamp(stamp_text(secs)) == Some(secs as int),
{
    reveal_strlit("T");
    reveal_strlit("z");
    lemma_moment(secs);
    let (y, m, d) = date_of(secs as int / 86400);
    let a = text::zero_padded(y as nat, 4);
    let b = text::zero_padded(m as nat, 2);
    let c = text::zero_padded(d as nat, 2);
    let e = text::zero_padded(secs % 86400 / 3600, 2);
    let f = text::zero_padded(secs % 3600 / 60, 2);
    let g = text::zero_padded(secs % 60, 2);
    reading::law_padded_decimals_read_back(y as nat, 4);
    reading::law_padded_decimals_read_back(m as nat, 2);
    reading::law_padded_decimals_read_back(d as nat, 2);
    reading::law_padded_decimals_read_back(secs % 86400 / 3600, 2);
    reading::law_padded_decimals_read_back(secs % 3600 / 60, 2);
    reading::law_padded_decimals_read_back(secs % 60, 2);
    let s = stamp_text(secs);
    let n = s.len() as int;
    assert(n == a.len() + 12);
    assert(s.subrange(0, n - 12) =~= a);
    assert(s.subrange(n - 12, n - 10) =~= b);
    assert(s.subrange(n - 10, n - 8) =~= c);
    assert(s.subrange(n - 7, n - 5) =~= e);
    assert(s.subrange(n - 5, n - 3) =~= f);
    assert(s.subrange(n - 3, n - 1) =~= g);
}

/// Three letters stand at place `i` of a row of names of three letters.
pub open spec fn is_name(s: Seq<char>, names: Seq<char>, i: int) -> bool {
    0 <= i && 3 * i + 3 <= names.len() && s == names.subrange(3 * i, 3 * i + 3)
}

proof fn lemma_month_name(m: int)
    requires
        1 <= m <= 12,
    ensures
        is_name(month_name(m), "JanFebMarAprMayJunJulAugSepOctNovDec"@, m - 1),
        month_name(m).len() == 3,
{
    reveal_strlit("JanFebMarAprMayJunJulAugSepOctNovDec");
    reveal_strlit("Jan");
    reveal_strlit("Feb");
    reveal_strlit("Mar");
    reveal_strlit("Apr");
    reveal_strlit("May");
    reveal_strlit("Jun");
    reveal_strlit("Jul");
    reveal_strlit("Aug");
    reveal_strlit("Sep");
    reveal_strlit("Oct");
    reveal_strlit("Nov");
    reveal_strlit("Dec");
    let names = "JanFebMarAprMayJunJulAugSepOctNovDec"@;
    assert(month_name(m) =~= names.subrange(3 * (m - 1), 3 * (m - 1) + 3));
}

proof fn lemma_weekday_name(days: int)
    requires
        days >= 0,
    ensures
        is_name(weekday_name((days + 4) % 7), "ThuFriSatSunMonTueWed"@, days % 7),
        weekday_name((days + 4) % 7).len() == 3,
{
    reveal_strlit("ThuFriSatSunMonTueWed");
    reveal_strlit("Sun");
    reveal_strlit("Mon");
    reveal_strlit("Tue");
    reveal_strlit("Wed");
    reveal_strlit("Thu");
    reveal_strlit("Fri");
    reveal_strlit("Sat");
    let names = "ThuFriSatSunMonTueWed"@;
    let w = days % 7;
    assert(weekday_name((days + 4) % 7) =~= names.subrange(3 * w, 3 * w + 3));
}

/// A reader of a `Date:` header finds the second that it was made of: `Www, DD Mmm
/// YYYY HH:MM:SS +0000`, where the months are named from January on, and the days of
/// the week from Thursday, the first of January 1970, on.
#[verifier::rlimit(40)]
pub proof fn law_date_headers_read_back(secs: nat)
    ensures
        ({
            let s = rfc2822_text(secs);
            let n = s.len() as int;
            &&& n >= 31
            &&& is_name(s.subrange(0, 3), "ThuFriSatSunMonTueWed"@, secs as int / 86400 % 7)
            &&& exists|m: int|
                {
                    &&& #[trigger] is_name(
                        s.subrange(8, 11),
                        "JanFebMarAprMayJunJulAugSepOctNovDec"@,
                        m,
                    )
                    &&& moment(
                        reading::number_at(s, 12, n - 15),
                        (m + 1) as nat,
                        reading::number_at(s, 5, 7),
                        reading::number_at(s, n - 14, n - 12),
                        reading::number_at(s, n - 11, n - 9),
                        reading::number_at(s, n - 8, n - 6),
                    ) == Some(secs as int)
                }
            &&& s.skip(n - 6) == " +0000"@
        }),
{
    reveal_strlit(", ");
    reveal_strlit(" ");
    reveal_strlit(":");
    reveal_strlit(" +0000");
    lemma_moment(secs);
    let days = secs as int / 86400;
    let (y, m, d) = date_of(days);
    lemma_month_name(m);
    lemma_weekday_name(days);
    let w = weekday_name((days + 4) % 7);
    let k = month_name(m);
    let a = text::zero_padded(y as nat, 4);
    let c = text::zero_padded(d as nat, 2);
    let e = text::zero_padded(secs % 86400 / 3600, 2);
    let f = text::zero_padded(secs % 3600 / 60, 2);
    let g = text::zero_padded(secs % 60, 2);
    reading::law_padded_decimals_read_back(y as nat, 4);
    reading::law_padded_decimals_read_back(d as nat, 2);
    reading::law_padded_decimals_read_back(secs % 86400 / 3600, 2);
    reading::law_padded_decimals_read_back(secs % 3600 / 60, 2);
    reading::law_padded_decimals_read_back(secs % 60, 2);
    lemma_header_pieces(w, c, k, a, e, f, g);
    let s = rfc2822_text(secs);
    assert(is_name(s.subrange(8, 11), "JanFebMarAprMayJunJulAugSepOctNovDec"@, m - 1));
}

#[verifier::rlimit(40)]
proof fn lemma_header_pieces(
    w: Seq<char>,
    c: Seq<char>,
    k: Seq<char>,
    a: Seq<char>,
    e: Seq<char>,
    f: Seq<char>,
    g: Seq<char>,
)
    requires
        w.len() == 3,
        c.len() == 2,
        k.len() == 3,
        a.len() >= 4,
        e.len() == 2,
        f.len() == 2,
        g.len() == 2,
    ensures
        ({
            let s = w + ", "@ + c + " "@ + k + " "@ + a + " "@ + e + ":"@ + f + ":"@ + g
                + " +0000"@;
            let n = s.len() as int;
            &&& n == a.len() + 27
            &&& s.subrange(0, 3) == w
            &&& s.subrange(5, 7) == c
            &&& s.subrange(8, 11) == k
            &&& s.subrange(12, n - 15) == a
            &&& s.subrange(n - 14, n - 12) == e
            &&& s.subrange(n - 11, n - 9) == f
            &&& s.subrange(n - 8, n - 6) == g
            &&& s.skip(n - 6) == " +0000"@
        }),
{
    reveal_strlit(", ");
    reveal_strlit(" ");
    reveal_strlit(":");
    reveal_strlit(" +0000");
    let s = w + ", "@ + c + " "@ + k + " "@ + a + " "@ + e + ":"@ + f + ":"@ + g + " +0000"@;
    let n = s.len() as int;
    assert(s.subrange(0, 3) =~= w);
    assert(s.subrange(5, 7) =~= c);
    assert(s.subrange(8, 11) =~= k);
    assert(s.subrange(12, n - 15) =~= a);
    assert(s.subrange(n - 14, n - 12) =~= e);
    assert(s.subrange(n - 11, n - 9) =~= f);
    assert(s.subrange(n - 8, n - 6) =~= g);
    assert(s.skip(n - 6) =~= " +0000"@);
}

} // verus!
