//! Dates and times, as they are shown beside the entries of a directory.
use crate::text;
use vstd::prelude::*;

verus! {

/// A date and a time.
#[derive(Clone, Copy, PartialEq, Eq, Structural, Debug)]
pub struct Stamp {
    pub year: u64,
    /// 1 to 12.
    pub month: u64,
    /// 1 to 31.
    pub day: u64,
    pub hour: u64,
    pub minute: u64,
    pub second: u64,
}

/// A stamp as text: `year-mm-dd hh:mm:ss`.
pub open spec fn stamp_text(t: Stamp) -> Seq<char> {
    text::decimal(t.year as nat) + "-"@ + text::decimal2(t.month as nat) + "-"@ + text::decimal2(
        t.day as nat,
    ) + " "@ + text::decimal2(t.hour as nat) + ":"@ + text::decimal2(t.minute as nat) + ":"@
        + text::decimal2(t.second as nat)
}

/// Writes a stamp as text.
pub fn format_stamp(t: Stamp) -> (r: String)
    ensures
        r@ == stamp_text(t),
{
    let mut s = String::new();
    text::push_decimal(&mut s, t.year);
    s.append("-");
    text::push_decimal2(&mut s, t.month);
    s.append("-");
    text::push_decimal2(&mut s, t.day);
    s.append(" ");
    text::push_decimal2(&mut s, t.hour);
    s.append(":");
    text::push_decimal2(&mut s, t.minute);
    s.append(":");
    text::push_decimal2(&mut s, t.second);
    assert(s@ =~= stamp_text(t));
    s
}

/// The year has a 29th of February.
pub open spec fn is_leap(year: int) -> bool {
    year % 4 == 0 && (year % 100 != 0 || year % 400 == 0)
}

/// The days of a year.
pub open spec fn year_days(year: int) -> int {
    if is_leap(year) {
        366
    } else {
        365
    }
}

/// The days of month `m`, counted from 1, of a year.
pub open spec fn month_days(year: int, m: int) -> int {
    if m == 2 {
        if is_leap(year) {
            29
        } else {
            28
        }
    } else if m == 4 || m == 6 || m == 9 || m == 11 {
        30
    } else {
        31
    }
}

/// The days of the months before month `m` of a year.
pub open spec fn days_before_month(year: int, m: int) -> int
    decreases m,
{
    if m <= 1 {
        0
    } else {
        days_before_month(year, m - 1) + month_days(year, m - 1)
    }
}

/// The leap years from year 1 up to `year`.
pub open spec fn leap_years(year: int) -> int {
    year / 4 - year / 100 + year / 400
}

/// The days from 1970-01-01 to the first day of `year`.
pub open spec fn days_before_year(year: int) -> int {
    365 * (year - 1970) + leap_years(year - 1) - leap_years(1969)
}

/// The seconds from 1970-01-01 00:00:00 to a stamp.
pub open spec fn unix_secs(t: Stamp) -> int {
    let days = days_before_year(t.year as int) + days_before_month(t.year as int, t.month as int)
        + t.day - 1;
    ((days * 24 + t.hour) * 60 + t.minute) * 60 + t.second
}

/// The stamp is a day of the calendar and a time of the day.
pub open spec fn is_date(t: Stamp) -> bool {
    &&& t.year >= 1970
    &&& 1 <= t.month <= 12
    &&& 1 <= t.day <= month_days(t.year as int, t.month as int)
    &&& t.hour < 24
    &&& t.minute < 60
    &&& t.second < 60
}

proof fn lemma_next_year(year: int)
    requires
        year >= 1970,
    ensures
        days_before_year(year + 1) == days_before_year(year) + year_days(year),
{
}

proof fn lemma_year_grows(a: int, b: int)
    requires
        1970 <= a <= b,
    ensures
        days_before_year(a) <= days_before_year(b),
        days_before_year(b) >= 365 * (b - 1970),
    decreases b - a,
{
    if a < b {
        lemma_year_grows(a, b - 1);
        lemma_next_year(b - 1);
    }
    assert(leap_years(b - 1) >= leap_years(1969));
}

proof fn lemma_month_grows(year: int, a: int, b: int)
    requires
        1 <= a <= b,
    ensures
        days_before_month(year, a) <= days_before_month(year, b),
    decreases b - a,
{
    if a < b {
        lemma_month_grows(year, a, b - 1);
    }
}

proof fn lemma_months_fill_year(year: int)
    ensures
        days_before_month(year, 13) == year_days(year),
{
    reveal_with_fuel(days_before_month, 14);
}

/// The days from 1970-01-01 to a day.
spec fn day_number(year: int, month: int, day: int) -> int {
    days_before_year(year) + days_before_month(year, month) + day - 1
}

/// A day of an earlier month comes earlier.
proof fn lemma_day_grows(y1: int, m1: int, d1: int, y2: int, m2: int, d2: int)
    requires
        1970 <= y1,
        y1 < y2 || (y1 == y2 && m1 < m2),
        1 <= m1 <= 12,
        1 <= m2 <= 12,
        1 <= d1 <= month_days(y1, m1),
        1 <= d2,
    ensures
        day_number(y1, m1, d1) < day_number(y2, m2, d2),
{
    assert(days_before_month(y1, m1 + 1) == days_before_month(y1, m1) + month_days(y1, m1));
    if y1 < y2 {
        lemma_months_fill_year(y1);
        lemma_month_grows(y1, m1 + 1, 13);
        lemma_month_grows(y2, 1, m2);
        lemma_next_year(y1);
        lemma_year_grows(y1 + 1, y2);
    } else {
        lemma_month_grows(y1, m1 + 1, m2);
    }
}

/// A number of seconds stands for one day and one time of the day.
proof fn lemma_clock(d1: int, h1: int, m1: int, s1: int, d2: int, h2: int, m2: int, s2: int)
    requires
        0 <= h1 < 24,
        0 <= h2 < 24,
        0 <= m1 < 60,
        0 <= m2 < 60,
        0 <= s1 < 60,
        0 <= s2 < 60,
        ((d1 * 24 + h1) * 60 + m1) * 60 + s1 == ((d2 * 24 + h2) * 60 + m2) * 60 + s2,
    ensures
        d1 == d2,
        h1 == h2,
        m1 == m2,
        s1 == s2,
{
}

/// A number of seconds stands for one stamp only.
pub proof fn lemma_stamp_is_unique(a: Stamp, b: Stamp)
    requires
        is_date(a),
        is_date(b),
        unix_secs(a) == unix_secs(b),
    ensures
        a == b,
{
    let da = day_number(a.year as int, a.month as int, a.day as int);
    let db = day_number(b.year as int, b.month as int, b.day as int);
    lemma_clock(
        da,
        a.hour as int,
        a.minute as int,
        a.second as int,
        db,
        b.hour as int,
        b.minute as int,
        b.second as int,
    );
    let (ay, am, ad) = (a.year as int, a.month as int, a.day as int);
    let (by, bm, bd) = (b.year as int, b.month as int, b.day as int);
    if ay < by || (ay == by && am < bm) {
        lemma_day_grows(ay, am, ad, by, bm, bd);
    } else if by < ay || (by == ay && bm < am) {
        lemma_day_grows(by, bm, bd, ay, am, ad);
    }
}

/// The stamp of a number of seconds since 1970-01-01 00:00:00.
pub open spec fn date_of(secs: u64) -> Stamp {
    choose|t: Stamp| #[trigger] is_date(t) && unix_secs(t) == secs
}

/// The stamp of a number of seconds since 1970-01-01 00:00:00.
pub fn stamp_of(secs: u64) -> (t: Stamp)
    ensures
        is_date(t),
        unix_secs(t) == secs,
        t == date_of(secs),
{
    let second: u64 = secs % 60;
    let mins: u64 = secs / 60;
    let minute: u64 = mins % 60;
    let hours: u64 = mins / 60;
    let hour: u64 = hours % 24;
    let total: u64 = hours / 24;
    let mut days: u64 = total;
    let mut year: u64 = 1970;
    let mut going: bool = true;
    while going
        invariant
            year >= 1970,
            days_before_year(year as int) + days == total,
            365 * (year - 1970) + days <= total,
            total <= 213_503_982_334_601,
            !going ==> days < year_days(year as int),
        decreases
            days + (if going {
                1int
            } else {
                0
            }),
    {
        let leap: bool = year % 4 == 0 && (year % 100 != 0 || year % 400 == 0);
        let len: u64 = if leap {
            366
        } else {
            365
        };
        if days < len {
            going = false;
        } else {
            proof {
                lemma_next_year(year as int);
            }
            days -= len;
            year += 1;
        }
    }
    let mut month: u64 = 1;
    going = true;
    proof {
        lemma_months_fill_year(year as int);
    }
    let ghost rest = days as int;
    while going
        invariant
            year >= 1970,
            1 <= month <= 12,
            rest < days_before_month(year as int, 13),
            days_before_month(year as int, month as int) + days == rest,
            !going ==> days < month_days(year as int, month as int),
        decreases
            days + (if going {
                1int
            } else {
                0
            }),
    {
        let leap: bool = year % 4 == 0 && (year % 100 != 0 || year % 400 == 0);
        let len: u64 = if month == 2 {
            if leap {
                29
            } else {
                28
            }
        } else if month == 4 || month == 6 || month == 9 || month == 11 {
            30
        } else {
            31
        };
        if days < len {
            going = false;
        } else {
            days -= len;
            month += 1;
        }
    }
    let t = Stamp { year, month, day: days + 1, hour, minute, second };
    proof {
        assert(is_date(t) && unix_secs(t) == secs);
        lemma_stamp_is_unique(t, date_of(secs));
    }
    t
}

/// The text of a number of seconds since 1970-01-01 00:00:00.
pub fn unix_secs_to_string(secs: u64) -> (r: String)
    ensures
        is_date(date_of(secs)),
        unix_secs(date_of(secs)) == secs,
        r@ == stamp_text(date_of(secs)),
{
    let t = stamp_of(secs);
    format_stamp(t)
}

} // verus!
