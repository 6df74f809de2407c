use vstd::prelude::*;

use crate::text::{push_char, push_space_padded, push_two_digits, space_padded, two_digits};

verus! {

/// Gregorian leap year.
pub open spec fn is_leap(y: nat) -> bool {
    (y % 4 == 0 && y % 100 != 0) || y % 400 == 0
}

/// Number of days in year `y`.
pub open spec fn year_length(y: nat) -> nat {
    if is_leap(y) {
        366
    } else {
        365
    }
}

/// Days from 1 January 1970 to 1 January of year `y`.
pub open spec fn days_before_year(y: nat) -> nat
    decreases y,
{
    if y <= 1970 {
        0
    } else {
        days_before_year((y - 1) as nat) + year_length((y - 1) as nat)
    }
}

/// Number of days of month `m` (0 = January) in year `y`.
pub open spec fn month_length(y: nat, m: nat) -> nat {
    if m == 1 {
        if is_leap(y) {
            29
        } else {
            28
        }
    } else if m == 3 || m == 5 || m == 8 || m == 10 {
        30
    } else {
        31
    }
}

/// Year and day of that year (from 0) of the day that lies `d` days after
/// 1 January of year `y`.
pub open spec fn year_and_day(d: nat, y: nat) -> (nat, nat)
    decreases d,
{
    if d < year_length(y) {
        (y, d)
    } else {
        year_and_day((d - year_length(y)) as nat, y + 1)
    }
}

/// Month (0 = January, from month `m` on) and day of that month (from 0)
/// of day `d` of year `y`.
pub open spec fn month_and_day(y: nat, d: nat, m: nat) -> (nat, nat)
    decreases 12 - m,
{
    if m >= 11 || d < month_length(y, m) {
        (m, d)
    } else {
        month_and_day(y, (d - month_length(y, m)) as nat, m + 1)
    }
}

/// English three-letter abbreviation of month `m` (0 = January).
pub open spec fn month_abbrev(m: nat) -> Seq<char> {
    if m == 0 {
        seq!['J', 'a', 'n']
    } else if m == 1 {
        seq!['F', 'e', 'b']
    } else if m == 2 {
        seq!['M', 'a', 'r']
    } else if m == 3 {
        seq!['A', 'p', 'r']
    } else if m == 4 {
        seq!['M', 'a', 'y']
    } else if m == 5 {
        seq!['J', 'u', 'n']
    } else if m == 6 {
        seq!['J', 'u', 'l']
    } else if m == 7 {
        seq!['A', 'u', 'g']
    } else if m == 8 {
        seq!['S', 'e', 'p']
    } else if m == 9 {
        seq!['O', 'c', 't']
    } else if m == 10 {
        seq!['N', 'o', 'v']
    } else {
        seq!['D', 'e', 'c']
    }
}

/// Seconds since the epoch, negative times counted as the epoch itself.
pub open spec fn clamped_secs(secs: i64) -> nat {
    if secs < 0 {
        0
    } else {
        secs as nat
    }
}

/// `[Mon dd HH:MM]` for the UTC time `secs` seconds after the epoch:
/// month abbreviation, day of month right aligned in two columns, hour
/// and minute zero padded.
pub open spec fn timestamp_text(secs: i64) -> Seq<char> {
    let t = clamped_secs(secs);
    let (year, doy) = year_and_day(t / 86400, 1970);
    let (month, dom) = month_and_day(year, doy, 0);
    seq!['['] + month_abbrev(month) + seq![' '] + space_padded(dom + 1) + seq![' ']
        + two_digits((t / 3600) % 24) + seq![':'] + two_digits((t / 60) % 60) + seq![']']
}

/// The Gregorian length of the month with the given English name:
/// thirty days hath September, April, June and November; February has
/// 28, or 29 in a leap year; all the rest have 31.
pub open spec fn gregorian_days(name: Seq<char>, leap: bool) -> nat {
    if name == seq!['A', 'p', 'r'] || name == seq!['J', 'u', 'n'] || name == seq!['S', 'e', 'p'] || name
        == seq!['N', 'o', 'v'] {
        30
    } else if name == seq!['F', 'e', 'b'] {
        if leap {
            29
        } else {
            28
        }
    } else {
        31
    }
}

/// Law: each of the twelve months, known by the name it is shown with,
/// has its Gregorian length, and the twelve make up the year.
pub proof fn lemma_months_are_gregorian(y: nat)
    ensures
        forall|m: nat| m < 12 ==> #[trigger] month_length(y, m) == gregorian_days(month_abbrev(m), is_leap(y)),
        days_before_month(y, 12) == year_length(y),
{
    reveal_with_fuel(days_before_month, 13);
    assert forall|m: nat| m < 12 implies #[trigger] month_length(y, m) == gregorian_days(month_abbrev(m), is_leap(y)) by {
        if m == 0 {
        } else if m == 1 {
        } else if m == 2 {
        } else if m == 3 {
        } else if m == 4 {
        } else if m == 5 {
        } else if m == 6 {
        } else if m == 7 {
        } else if m == 8 {
        } else if m == 9 {
        } else if m == 10 {
        } else {
        }
    }
}

/// Law: the Gregorian leap rule: a year that is not a century year is a
/// leap year exactly when divisible by 4; a century year exactly when
/// divisible by 400; and a leap year has 366 days, any other 365.
pub proof fn lemma_leap_rule(y: nat)
    ensures
        y % 100 != 0 ==> (is_leap(y) <==> y % 4 == 0),
        y % 100 == 0 ==> (is_leap(y) <==> y % 400 == 0),
        year_length(y) == (if is_leap(y) {
            366nat
        } else {
            365nat
        }),
{
    if y % 100 == 0 {
        assert(y % 4 == 0) by (nonlinear_arith)
            requires
                y % 100 == 0,
        ;
    }
}

/// Law: a formatted date never shows a day beyond the real length of the
/// month it names: for any time, the day of month in the text is at least
/// 1 and at most the Gregorian length of that month in that year.
pub proof fn lemma_shown_day_exists(secs: i64)
    ensures
        ({
            let t = clamped_secs(secs);
            let (year, doy) = year_and_day(t / 86400, 1970);
            let (month, dom) = month_and_day(year, doy, 0);
            &&& month < 12
            &&& 1 <= dom + 1 <= gregorian_days(month_abbrev(month), is_leap(year))
        }),
{
    let t = clamped_secs(secs);
    lemma_year_and_day_bounds(t / 86400, 1970);
    let (year, doy) = year_and_day(t / 86400, 1970);
    assert(days_before_month(year, 0) == 0);
    lemma_month_and_day_bounds(year, doy, 0);
    lemma_months_are_gregorian(year);
    let (month, dom) = month_and_day(year, doy, 0);
    assert(month_length(year, month) == gregorian_days(month_abbrev(month), is_leap(year)));
}

/// Law: the year found for a day count is the one whose span holds it:
/// the day lies `doy` days after that year began, within that year.
pub proof fn lemma_year_and_day_bounds(d: nat, y: nat)
    requires
        y >= 1970,
    ensures
        year_and_day(d, y).0 >= y,
        days_before_year(year_and_day(d, y).0) + year_and_day(d, y).1 == days_before_year(y) + d,
        year_and_day(d, y).1 < year_length(year_and_day(d, y).0),
    decreases d,
{
    if d >= year_length(y) {
        lemma_year_and_day_bounds((d - year_length(y)) as nat, y + 1);
    }
}

/// Law: the month found for a day of a year holds that day: it lies `dom`
/// days after the month began, within that month, and the month is one
/// of the twelve.
pub proof fn lemma_month_and_day_bounds(y: nat, d: nat, m: nat)
    requires
        m <= 11,
        d < year_length(y) - days_before_month(y, m),
        days_before_month(y, m) < year_length(y),
    ensures
        month_and_day(y, d, m).0 <= 11,
        m <= month_and_day(y, d, m).0,
        days_before_month(y, month_and_day(y, d, m).0) + month_and_day(y, d, m).1
            == days_before_month(y, m) + d,
        month_and_day(y, d, m).1 < month_length(y, month_and_day(y, d, m).0),
    decreases 12 - m,
{
    if m == 11 {
        reveal_with_fuel(days_before_month, 12);
        assert(days_before_month(y, 11) + 31 == year_length(y));
    }
    if m < 11 && d >= month_length(y, m) {
        lemma_month_and_day_bounds(y, (d - month_length(y, m)) as nat, m + 1);
    }
}

/// Days of year `y` before month `m` begins.
pub open spec fn days_before_month(y: nat, m: nat) -> nat
    decreases m,
{
    if m == 0 {
        0
    } else {
        days_before_month(y, (m - 1) as nat) + month_length(y, (m - 1) as nat)
    }
}

fn leap_year(y: u64) -> (res: bool)
    ensures
        res == is_leap(y as nat),
{
    (y % 4 == 0 && y % 100 != 0) || y % 400 == 0
}

fn year_len(y: u64) -> (res: u64)
    ensures
        res == year_length(y as nat),
{
    if leap_year(y) {
        366
    } else {
        365
    }
}

fn month_len(leap: bool, m: u64) -> (res: u64)
    requires
        m < 12,
    ensures
        forall|y: nat| is_leap(y) == leap ==> res == month_length(y, m as nat),
{
    if m == 1 {
        if leap {
            29
        } else {
            28
        }
    } else if m == 3 || m == 5 || m == 8 || m == 10 {
        30
    } else {
        31
    }
}

fn push_month(s: &mut String, m: u64)
    requires
        m < 12,
    ensures
        final(s)@ == old(s)@ + month_abbrev(m as nat),
{
    let (a, b, c) = if m == 0 {
        ('J', 'a', 'n')
    } else if m == 1 {
        ('F', 'e', 'b')
    } else if m == 2 {
        ('M', 'a', 'r')
    } else if m == 3 {
        ('A', 'p', 'r')
    } else if m == 4 {
        ('M', 'a', 'y')
    } else if m == 5 {
        ('J', 'u', 'n')
    } else if m == 6 {
        ('J', 'u', 'l')
    } else if m == 7 {
        ('A', 'u', 'g')
    } else if m == 8 {
        ('S', 'e', 'p')
    } else if m == 9 {
        ('O', 'c', 't')
    } else if m == 10 {
        ('N', 'o', 'v')
    } else {
        ('D', 'e', 'c')
    };
    push_char(s, a);
    push_char(s, b);
    push_char(s, c);
    assert(s@ =~= old(s)@ + month_abbrev(m as nat));
}

/// Formats a modification or change time, given in seconds since the
/// epoch, as `[Mon dd HH:MM]` (UTC); times before the epoch show as the
/// epoch.
pub fn format_timestamp(secs: i64) -> (res: String)
    ensures
        res@ == timestamp_text(secs),
{
    let t: u64 = if secs < 0 {
        0
    } else {
        secs as u64
    };
    let m = (t / 60) % 60;
    let h = (t / 3600) % 24;
    let mut days: u64 = t / 86400;
    let mut year: u64 = 1970;
    let ghost total = days;
    assert(total <= u64::MAX / 86400);
    while days >= year_len(year)
        invariant
            year_and_day(total as nat, 1970) == year_and_day(days as nat, year as nat),
            1970 <= year,
            year - 1970 + days <= total,
            total <= u64::MAX / 86400,
        decreases days,
    {
        days = days - year_len(year);
        year = year + 1;
    }
    let leap = leap_year(year);
    let mut month: u64 = 0;
    let ghost doy = days;
    assert(year_and_day(total as nat, 1970) == (year as nat, days as nat));
    while month < 11 && days >= month_len(leap, month)
        invariant
            month <= 11,
            leap == is_leap(year as nat),
            month_and_day(year as nat, doy as nat, 0) == month_and_day(
                year as nat,
                days as nat,
                month as nat,
            ),
            days <= doy,
        decreases 11 - month,
    {
        days = days - month_len(leap, month);
        month = month + 1;
    }
    assert(month_and_day(year as nat, doy as nat, 0) == (month as nat, days as nat));
    let mut out = String::new();
    push_char(&mut out, '[');
    push_month(&mut out, month);
    push_char(&mut out, ' ');
    proof {
        lemma_year_and_day_bounds(total as nat, 1970);
        assert(days_before_month(year as nat, 0) == 0);
        lemma_month_and_day_bounds(year as nat, doy as nat, 0);
    }
    assert(days < 31);
    push_space_padded(&mut out, days + 1);
    push_char(&mut out, ' ');
    push_two_digits(&mut out, h);
    push_char(&mut out, ':');
    push_two_digits(&mut out, m);
    push_char(&mut out, ']');
    assert(out@ =~= timestamp_text(secs));
    out
}

} // verus!
