//! Times as the inspector shows them: a UTC calendar date from seconds since
//! the epoch, and a short duration.
use vstd::prelude::*;
use crate::text::{decimal, padded, push_decimal, push_padded};

verus! {

/// Gregorian leap years.
pub open spec fn leap(y: int) -> bool {
    (y % 4 == 0 && y % 100 != 0) || y % 400 == 0
}

pub open spec fn days_in_year(y: int) -> int {
    if leap(y) {
        366
    } else {
        365
    }
}

/// Days from 1970-01-01 to the first day of year `y` (`y` >= 1970).
pub open spec fn days_before_year(y: int) -> int
    decreases y - 1970,
{
    if y <= 1970 {
        0
    } else {
        days_before_year(y - 1) + days_in_year(y - 1)
    }
}

/// Days in month `m` (1 to 12) of year `y`.
pub open spec fn days_in_month(y: int, m: int) -> int {
    if m == 2 {
        if leap(y) {
            29
        } else {
            28
        }
    } else if m == 4 || m == 6 || m == 9 || m == 11 {
        30
    } else {
        31
    }
}

/// Days from the first of January to the first of month `m` of year `y`.
pub open spec fn days_before_month(y: int, m: int) -> int
    decreases m,
{
    if m <= 1 {
        0
    } else {
        days_before_month(y, m - 1) + days_in_month(y, m - 1)
    }
}

/// A date and time of day from 1970 on, each part in its range.
pub open spec fn valid_civil(t: (u64, u64, u64, u64, u64, u64)) -> bool {
    &&& t.0 >= 1970
    &&& 1 <= t.1 <= 12
    &&& 1 <= t.2 <= days_in_month(t.0 as int, t.1 as int)
    &&& t.3 < 24
    &&& t.4 < 60
    &&& t.5 < 60
}

/// Seconds since 1970-01-01 00:00:00 UTC of a (year, month, day, hour,
/// minute, second).
pub open spec fn civil_seconds(t: (u64, u64, u64, u64, u64, u64)) -> int {
    (days_before_year(t.0 as int) + days_before_month(t.0 as int, t.1 as int) + t.2 - 1) * 86400
        + t.3 * 3600 + t.4 * 60 + t.5
}

pub fn is_leap(y: u64) -> (r: bool)
    ensures
        r == leap(y as int),
{
    (y % 4 == 0 && y % 100 != 0) || y % 400 == 0
}

fn month_days(y: u64, m: u64) -> (d: u64)
    ensures
        d == days_in_month(y as int, m as int),
{
    if m == 2 {
        if is_leap(y) {
            29
        } else {
            28
        }
    } else if m == 4 || m == 6 || m == 9 || m == 11 {
        30
    } else {
        31
    }
}

/// Every year before `y` has at least 365 days.
proof fn lemma_days_before_year_lower(y: int)
    requires
        y >= 1970,
    ensures
        days_before_year(y) >= 365 * (y - 1970),
    decreases y - 1970,
{
    if y > 1970 {
        lemma_days_before_year_lower(y - 1);
    }
}

/// The months of a year add up to the year.
proof fn lemma_months_fill_year(y: int)
    ensures
        days_before_month(y, 13) == days_in_year(y),
{
    reveal_with_fuel(days_before_month, 13);
}

/// Minimal UTC calendar conversion: (year, month, day, hour, minute,
/// second) of a count of seconds since the epoch.
pub fn secs_to_ymd(secs: u64) -> (r: (u64, u64, u64, u64, u64, u64))
    ensures
        valid_civil(r),
        civil_seconds(r) == secs,
{
    let s = secs % 60;
    let mins = secs / 60;
    let mi = mins % 60;
    let hours = mins / 60;
    let h = hours % 24;
    let total = hours / 24;
    let mut days = total;
    let mut year: u64 = 1970;
    loop
        invariant
            year >= 1970,
            days_before_year(year as int) + days == total,
            365 * (year - 1970) <= days_before_year(year as int),
            total <= 0xffff_ffff_ffff_ffffu64 / 60 / 60 / 24,
        ensures
            year >= 1970,
            days_before_year(year as int) + days == total,
            days < days_in_year(year as int),
        decreases days,
    {
        let dy: u64 = if is_leap(year) {
            366
        } else {
            365
        };
        if days < dy {
            break ;
        }
        days = days - dy;
        year = year + 1;
    }
    let ghost doy = days as int;
    let mut month: u64 = 1;
    loop
        invariant
            1 <= month <= 12,
            days_before_month(year as int, month as int) + days == doy,
            doy < days_in_year(year as int),
        ensures
            1 <= month <= 12,
            days < days_in_month(year as int, month as int),
            days_before_month(year as int, month as int) + days == doy,
        decreases 12 - month,
    {
        let dm = month_days(year, month);
        if days < dm {
            break ;
        }
        proof {
            lemma_months_fill_year(year as int);
            if month == 12 {
                assert(days_before_month(year as int, 13) == days_before_month(year as int, 12)
                    + days_in_month(year as int, 12));
            }
        }
        days = days - dm;
        month = month + 1;
    }
    assert(secs == mins * 60 + s);
    assert(mins == hours * 60 + mi);
    assert(hours == total * 24 + h);
    assert(secs == total * 86400 + h * 3600 + mi * 60 + s) by (nonlinear_arith)
        requires
            secs == mins * 60 + s,
            mins == hours * 60 + mi,
            hours == total * 24 + h,
    ;
    (year, month, days + 1, h, mi, s)
}

proof fn lemma_days_before_year_mono(y1: int, y2: int)
    requires
        1970 <= y1 <= y2,
    ensures
        days_before_year(y1) <= days_before_year(y2),
    decreases y2 - y1,
{
    if y1 < y2 {
        lemma_days_before_year_mono(y1, y2 - 1);
    }
}

proof fn lemma_days_before_month_mono(y: int, m1: int, m2: int)
    requires
        1 <= m1 <= m2,
    ensures
        days_before_month(y, m1) <= days_before_month(y, m2),
    decreases m2 - m1,
{
    if m1 < m2 {
        lemma_days_before_month_mono(y, m1, m2 - 1);
    }
}

/// Distinct valid dates are distinct seconds: the date that `secs_to_ymd`
/// gives is the only valid one for its second, so converting a valid date
/// to seconds and back gives the same date.
pub proof fn lemma_civil_seconds_injective(
    a: (u64, u64, u64, u64, u64, u64),
    b: (u64, u64, u64, u64, u64, u64),
)
    requires
        valid_civil(a),
        valid_civil(b),
        civil_seconds(a) == civil_seconds(b),
    ensures
        a == b,
{
    let ya = a.0 as int;
    let yb = b.0 as int;
    let doy_a = days_before_month(ya, a.1 as int) + a.2 - 1;
    let doy_b = days_before_month(yb, b.1 as int) + b.2 - 1;
    let da = days_before_year(ya) + doy_a;
    let db = days_before_year(yb) + doy_b;
    let ta = a.3 * 3600 + a.4 * 60 + a.5;
    let tb = b.3 * 3600 + b.4 * 60 + b.5;
    assert(0 <= ta < 86400 && 0 <= tb < 86400);
    assert(da * 86400 + ta == db * 86400 + tb);
    assert(da == db) by (nonlinear_arith)
        requires
            da * 86400 + ta == db * 86400 + tb,
            0 <= ta < 86400,
            0 <= tb < 86400,
    ;
    assert(a.3 == b.3 && a.4 == b.4 && a.5 == b.5);
    lemma_months_fill_year(ya);
    lemma_months_fill_year(yb);
    lemma_days_before_month_mono(ya, a.1 as int + 1, 13);
    lemma_days_before_month_mono(yb, b.1 as int + 1, 13);
    lemma_days_before_month_mono(ya, 1, a.1 as int);
    lemma_days_before_month_mono(yb, 1, b.1 as int);
    assert(days_before_month(ya, a.1 as int + 1) == days_before_month(ya, a.1 as int)
        + days_in_month(ya, a.1 as int));
    assert(days_before_month(yb, b.1 as int + 1) == days_before_month(yb, b.1 as int)
        + days_in_month(yb, b.1 as int));
    assert(0 <= doy_a < days_in_year(ya));
    assert(0 <= doy_b < days_in_year(yb));
    if ya < yb {
        lemma_days_before_year_mono(ya + 1, yb);
        assert(false);
    }
    if yb < ya {
        lemma_days_before_year_mono(yb + 1, ya);
        assert(false);
    }
    assert(ya == yb);
    if a.1 < b.1 {
        lemma_days_before_month_mono(ya, a.1 as int + 1, b.1 as int);
        assert(false);
    }
    if b.1 < a.1 {
        lemma_days_before_month_mono(ya, b.1 as int + 1, a.1 as int);
        assert(false);
    }
}

/// The calendar date and time of a count of seconds since the epoch.
pub open spec fn civil_of(secs: nat) -> (u64, u64, u64, u64, u64, u64) {
    choose|t: (u64, u64, u64, u64, u64, u64)| valid_civil(t) && civil_seconds(t) == secs
}

/// `YYYY-MM-DD hh:mm:ss` of a calendar date and time.
pub open spec fn civil_text(t: (u64, u64, u64, u64, u64, u64)) -> Seq<char> {
    padded(t.0 as nat, 4) + "-"@ + padded(t.1 as nat, 2) + "-"@ + padded(t.2 as nat, 2) + " "@
        + padded(t.3 as nat, 2) + ":"@ + padded(t.4 as nat, 2) + ":"@ + padded(t.5 as nat, 2)
}

/// How a start time is shown: its UTC date and time when it lies in the
/// past (`elapsed`), `unknown` otherwise.
pub open spec fn unix_time_text(secs: nat, elapsed: bool) -> Seq<char> {
    if elapsed {
        civil_text(civil_of(secs))
    } else {
        "unknown"@
    }
}

/// The date that `secs_to_ymd` gives is the one `civil_of` names.
pub proof fn lemma_civil_of(secs: u64, t: (u64, u64, u64, u64, u64, u64))
    requires
        valid_civil(t),
        civil_seconds(t) == secs,
    ensures
        civil_of(secs as nat) == t,
{
    let c = civil_of(secs as nat);
    assert(valid_civil(c) && civil_seconds(c) == secs);
    lemma_civil_seconds_injective(c, t);
}

/// Shows a start time (seconds since the epoch) as `YYYY-MM-DD hh:mm:ss` in
/// UTC, or `unknown` when it does not lie in the past; `elapsed` says whether
/// the current time is at or after it.
pub fn fmt_unix_time(unix_secs: u64, elapsed: bool) -> (r: String)
    ensures
        r@ == unix_time_text(unix_secs as nat, elapsed),
{
    if !elapsed {
        return String::from_str("unknown");
    }
    let t = secs_to_ymd(unix_secs);
    proof {
        lemma_civil_of(unix_secs, t);
    }
    let (y, mo, d, h, mi, s) = t;
    let mut out = String::new();
    push_padded(&mut out, y, 4);
    out.append("-");
    push_padded(&mut out, mo, 2);
    out.append("-");
    push_padded(&mut out, d, 2);
    out.append(" ");
    push_padded(&mut out, h, 2);
    out.append(":");
    push_padded(&mut out, mi, 2);
    out.append(":");
    push_padded(&mut out, s, 2);
    assert(out@ =~= civil_text(t));
    out
}

/// How a run time in seconds is shown: the two largest units of days,
/// hours, minutes and seconds, or seconds alone under a minute.
pub open spec fn duration_text(secs: nat) -> Seq<char> {
    if secs >= 86400 {
        decimal(secs / 86400) + "d "@ + decimal((secs % 86400) / 3600) + "h"@
    } else if secs >= 3600 {
        decimal(secs / 3600) + "h "@ + decimal((secs % 3600) / 60) + "m"@
    } else if secs >= 60 {
        decimal(secs / 60) + "m "@ + decimal(secs % 60) + "s"@
    } else {
        decimal(secs) + "s"@
    }
}

pub fn fmt_duration(secs: u64) -> (r: String)
    ensures
        r@ == duration_text(secs as nat),
{
    let mut out = String::new();
    if secs >= 86400 {
        push_decimal(&mut out, secs / 86400);
        out.append("d ");
        push_decimal(&mut out, (secs % 86400) / 3600);
        out.append("h");
    } else if secs >= 3600 {
        push_decimal(&mut out, secs / 3600);
        out.append("h ");
        push_decimal(&mut out, (secs % 3600) / 60);
        out.append("m");
    } else if secs >= 60 {
        push_decimal(&mut out, secs / 60);
        out.append("m ");
        push_decimal(&mut out, secs % 60);
        out.append("s");
    } else {
        push_decimal(&mut out, secs);
        out.append("s");
    }
    assert(out@ =~= duration_text(secs as nat));
    out
}

} // verus!
