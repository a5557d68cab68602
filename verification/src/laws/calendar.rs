//! Dates and times.
use crate::calendar;
use crate::calendar::Stamp;
use crate::text;
use vstd::prelude::*;

verus! {

/// The year is a leap year: every fourth one is, but of the full centuries only
/// every fourth.
pub open spec fn leap(year: int) -> bool {
    if year % 100 == 0 {
        year % 400 == 0
    } else {
        year % 4 == 0
    }
}

/// The last day of a month.
pub open spec fn last_day(year: int, month: int) -> int {
    if month == 1 || month == 3 || month == 5 || month == 7 || month == 8 || month == 10 || month
        == 12 {
        31
    } else if month != 2 {
        30
    } else if leap(year) {
        29
    } else {
        28
    }
}

/// Midnight of the day behind the day of `t`.
pub open spec fn next_day(t: Stamp) -> Stamp {
    let m = Stamp { hour: 0, minute: 0, second: 0, ..t };
    if t.day < last_day(t.year as int, t.month as int) {
        Stamp { day: (t.day + 1) as u64, ..m }
    } else if t.month < 12 {
        Stamp { day: 1, month: (t.month + 1) as u64, ..m }
    } else {
        Stamp { day: 1, month: 1, year: (t.year + 1) as u64, ..m }
    }
}

/// The second behind `t`.
pub open spec fn next_second(t: Stamp) -> Stamp {
    if t.second < 59 {
        Stamp { second: (t.second + 1) as u64, ..t }
    } else if t.minute < 59 {
        Stamp { second: 0, minute: (t.minute + 1) as u64, ..t }
    } else if t.hour < 23 {
        Stamp { second: 0, minute: 0, hour: (t.hour + 1) as u64, ..t }
    } else {
        next_day(t)
    }
}

/// The start of the count: midnight of the first day of 1970.
pub open spec fn epoch() -> Stamp {
    Stamp { year: 1970, month: 1, day: 1, hour: 0, minute: 0, second: 0 }
}

proof fn lemma_leap(year: int)
    ensures
        calendar::is_leap(year) == leap(year),
{
    if year % 100 == 0 {
        assert(year % 4 == 0);
    } else if year % 400 == 0 {
        assert(year % 100 == 0);
    }
}

proof fn lemma_month(year: int, month: int)
    requires
        1 <= month <= 12,
    ensures
        calendar::month_days(year, month) == last_day(year, month),
{
    lemma_leap(year);
}

/// The count begins at the epoch, and each second is one more than the one before
/// it.
pub proof fn lemma_seconds_count(t: Stamp)
    requires
        calendar::is_date(t),
        t.year < u64::MAX,
    ensures
        calendar::is_date(epoch()),
        calendar::unix_secs(epoch()) == 0,
        calendar::is_date(next_second(t)),
        calendar::unix_secs(next_second(t)) == calendar::unix_secs(t) + 1,
{
    let y = t.year as int;
    let m = t.month as int;
    lemma_month(1970, 1);
    lemma_month(y, m);
    lemma_leap(y);
    if m < 12 {
        lemma_month(y, m + 1);
        assert(calendar::days_before_month(y, m + 1) == calendar::days_before_month(y, m)
            + last_day(y, m));
    } else {
        lemma_month(y + 1, 1);
        lemma_year(y);
    }
    let u = next_second(t);
    if t.second == 59 && t.minute == 59 && t.hour == 23 {
        let a = calendar::days_before_year(y) + calendar::days_before_month(y, m) + t.day - 1;
        let b = calendar::days_before_year(u.year as int) + calendar::days_before_month(
            u.year as int,
            u.month as int,
        ) + u.day - 1;
        assert(b == a + 1);
    }
}

proof fn lemma_year(y: int)
    requires
        y >= 1970,
    ensures
        calendar::days_before_year(y + 1) == calendar::days_before_year(y)
            + calendar::days_before_month(y, 12) + 31,
        calendar::days_before_month(y + 1, 1) == 0,
{
    lemma_leap(y);
    reveal_with_fuel(calendar::days_before_month, 13);
    assert(calendar::days_before_month(y, 12) == 334 + (if leap(y) {
        1int
    } else {
        0
    }));
}

/// A number of seconds is shown as the date that is so many seconds behind the
/// epoch: no seconds are the epoch itself, and one more second is the next date.
pub proof fn lemma_dates_follow(secs: u64, a: Stamp, b: Stamp)
    requires
        secs < u64::MAX,
        calendar::is_date(a),
        calendar::unix_secs(a) == secs,
        calendar::is_date(b),
        calendar::unix_secs(b) == secs + 1,
        a.year < u64::MAX,
    ensures
        calendar::date_of(secs) == a,
        calendar::date_of((secs + 1) as u64) == next_second(calendar::date_of(secs)),
        calendar::date_of(0) == epoch(),
{
    let x = calendar::date_of(secs);
    calendar::lemma_stamp_is_unique(a, x);
    lemma_seconds_count(a);
    let y = calendar::date_of((secs + 1) as u64);
    calendar::lemma_stamp_is_unique(b, y);
    calendar::lemma_stamp_is_unique(b, next_second(a));
    let z = calendar::date_of(0);
    assert(calendar::is_date(epoch()) && calendar::unix_secs(epoch()) == 0);
    calendar::lemma_stamp_is_unique(epoch(), z);
}

proof fn lemma_two(n: nat)
    requires
        n < 100,
    ensures
        text::decimal2(n).len() == 2,
        '0' <= text::decimal2(n)[0] <= '9',
        '0' <= text::decimal2(n)[1] <= '9',
        n == (text::decimal2(n)[0] as int - 48) * 10 + (text::decimal2(n)[1] as int - 48),
{
    reveal_with_fuel(text::decimal, 3);
    let s = text::decimal2(n);
    if n < 10 {
        assert(s[0] == '0' && s[1] == text::digit_char(n as int));
    } else {
        assert(s[0] == text::digit_char((n / 10) as int) && s[1] == text::digit_char(
            (n % 10) as int,
        ));
    }
}

proof fn lemma_four(n: nat)
    requires
        1000 <= n < 10000,
    ensures
        text::decimal(n).len() == 4,
        n == (text::decimal(n)[0] as int - 48) * 1000 + (text::decimal(n)[1] as int - 48) * 100 + (
        text::decimal(n)[2] as int - 48) * 10 + (text::decimal(n)[3] as int - 48),
{
    let a = n / 10;
    let b = a / 10;
    let c = b / 10;
    assert(text::decimal(c) == seq![text::digit_char(c as int)]);
    assert(text::decimal(b) == text::decimal(c).push(text::digit_char((b % 10) as int)));
    assert(text::decimal(a) == text::decimal(b).push(text::digit_char((a % 10) as int)));
    assert(text::decimal(n) == text::decimal(a).push(text::digit_char((n % 10) as int)));
    let s = text::decimal(n);
    assert(s[0] == text::digit_char(c as int) && s[1] == text::digit_char((b % 10) as int) && s[2]
        == text::digit_char((a % 10) as int) && s[3] == text::digit_char((n % 10) as int));
}

/// The number that two characters of a text are.
pub open spec fn pair(s: Seq<char>, i: int) -> int {
    (s[i] as int - 48) * 10 + (s[i + 1] as int - 48)
}

/// How a date is written: `yyyy-mm-dd hh:mm:ss`, each part in digits.
pub proof fn lemma_written(t: Stamp)
    requires
        calendar::is_date(t),
        1970 <= t.year <= 9999,
    ensures
        ({
            let s = calendar::stamp_text(t);
            &&& s.len() == 19
            &&& pair(s, 0) * 100 + pair(s, 2) == t.year
            &&& s[4] == '-'
            &&& pair(s, 5) == t.month
            &&& s[7] == '-'
            &&& pair(s, 8) == t.day
            &&& s[10] == ' '
            &&& pair(s, 11) == t.hour
            &&& s[13] == ':'
            &&& pair(s, 14) == t.minute
            &&& s[16] == ':'
            &&& pair(s, 17) == t.second
        }),
{
    reveal_strlit("-");
    reveal_strlit(" ");
    reveal_strlit(":");
    assert("-"@ =~= seq!['-'] && " "@ =~= seq![' '] && ":"@ =~= seq![':']);
    let y = text::decimal(t.year as nat);
    let mo = text::decimal2(t.month as nat);
    let d = text::decimal2(t.day as nat);
    let h = text::decimal2(t.hour as nat);
    let mi = text::decimal2(t.minute as nat);
    let se = text::decimal2(t.second as nat);
    lemma_four(t.year as nat);
    lemma_two(t.month as nat);
    lemma_two(t.day as nat);
    lemma_two(t.hour as nat);
    lemma_two(t.minute as nat);
    lemma_two(t.second as nat);
    let s = calendar::stamp_text(t);
    assert(s =~= y + seq!['-'] + mo + seq!['-'] + d + seq![' '] + h + seq![':'] + mi + seq![':']
        + se);
    assert(s[0] == y[0] && s[1] == y[1] && s[2] == y[2] && s[3] == y[3]);
    assert(s[5] == mo[0] && s[6] == mo[1]);
    assert(s[8] == d[0] && s[9] == d[1]);
    assert(s[11] == h[0] && s[12] == h[1]);
    assert(s[14] == mi[0] && s[15] == mi[1]);
    assert(s[17] == se[0] && s[18] == se[1]);
}

} // verus!
