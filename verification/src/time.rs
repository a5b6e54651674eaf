//! Calendar arithmetic and RFC 3339 timestamps (UTC, second precision).

use vstd::prelude::*;
use crate::text::{dec, decimal, push_char, zero_pad};

verus! {

/// Whether `y` is a leap year of the proleptic Gregorian calendar.
pub open spec fn is_leap(y: int) -> bool {
    (y % 4 == 0 && y % 100 != 0) || y % 400 == 0
}

/// Number of days in month `m` (1–12) of year `y`.
pub open spec fn month_len(y: int, m: int) -> int {
    if m == 2 {
        if is_leap(y) { 29 } else { 28 }
    } else if m == 4 || m == 6 || m == 9 || m == 11 {
        30
    } else {
        31
    }
}

/// Days in year `y` before the first of month `m` (1–12).
pub open spec fn days_before_month(y: int, m: int) -> int {
    let common: int = if m == 1 { 0 } else if m == 2 { 31 } else if m == 3 { 59 } else if m == 4 { 90 }
        else if m == 5 { 120 } else if m == 6 { 151 } else if m == 7 { 181 } else if m == 8 { 212 }
        else if m == 9 { 243 } else if m == 10 { 273 } else if m == 11 { 304 } else { 334 };
    common + if m > 2 && is_leap(y) { 1int } else { 0int }
}

/// Number of leap years among the years 1 to `n` (negative counts for `n < 0`).
pub open spec fn leap_years_through(n: int) -> int {
    n / 4 - n / 100 + n / 400
}

/// Days from 1970-01-01 to January 1st of year `y`.
pub open spec fn days_before_year(y: int) -> int {
    365 * (y - 1970) + leap_years_through(y - 1) - leap_years_through(1969)
}

/// Days from 1970-01-01 to the date `y-m-d`.
pub open spec fn days_from_civil(y: int, m: int, d: int) -> int {
    days_before_year(y) + days_before_month(y, m) + d - 1
}

/// Whether `y-m-d` is a calendar date.
pub open spec fn valid_date(y: int, m: int, d: int) -> bool {
    1 <= m <= 12 && 1 <= d <= month_len(y, m)
}

/// Each year is 365 days long, 366 when it is a leap year.
pub proof fn law_year_length(y: int)
    ensures
        days_before_year(y + 1) - days_before_year(y) == if is_leap(y) { 366int } else { 365int },
{
    assert(leap_years_through(y) - leap_years_through(y - 1) == if is_leap(y) { 1int } else { 0int }) by (nonlinear_arith);
}

proof fn lemma_year_of_era(doe: u32)
    requires
        doe <= 146096,
    ensures
        ({
            let yoe = (doe - doe / 1460 + doe / 36524 - doe / 146096) / 365;
            let base = 365 * yoe + yoe / 4 - yoe / 100;
            &&& yoe <= 399
            &&& base <= doe
            &&& doe - base <= 364 + (if yoe % 4 == 3 && (yoe % 100 != 99 || yoe == 399) { 1u32 } else { 0u32 })
        }),
{
    assert({
        let yoe = (doe - doe / 1460 + doe / 36524 - doe / 146096) / 365;
        let base = 365 * yoe + yoe / 4 - yoe / 100;
        &&& yoe <= 399
        &&& base <= doe
        &&& doe - base <= 364 + (if yoe % 4 == 3 && (yoe % 100 != 99 || yoe == 399) { 1u32 } else { 0u32 })
    }) by (bit_vector)
        requires
            doe <= 146096,
    ;
}

/// Month of a March-based year: `doy` (0–365) falls in month `mp` (0 =
/// March … 11 = February), whose first day is `(153 * mp + 2) / 5`.
proof fn lemma_month_of_year(doy: u32)
    requires
        doy <= 365,
    ensures
        ({
            let mp = (5 * doy + 2) / 153;
            let start = (153 * mp + 2) / 5;
            &&& mp <= 11
            &&& start <= doy
            &&& (mp == 0 ==> start == 0 && doy - start < 31)
            &&& (mp == 1 ==> start == 31 && doy - start < 30)
            &&& (mp == 2 ==> start == 61 && doy - start < 31)
            &&& (mp == 3 ==> start == 92 && doy - start < 30)
            &&& (mp == 4 ==> start == 122 && doy - start < 31)
            &&& (mp == 5 ==> start == 153 && doy - start < 31)
            &&& (mp == 6 ==> start == 184 && doy - start < 30)
            &&& (mp == 7 ==> start == 214 && doy - start < 31)
            &&& (mp == 8 ==> start == 245 && doy - start < 30)
            &&& (mp == 9 ==> start == 275 && doy - start < 31)
            &&& (mp == 10 ==> start == 306 && doy - start < 31)
            &&& (mp == 11 ==> start == 337)
        }),
{
    assert({
        let mp = (5 * doy + 2) / 153;
        let start = (153 * mp + 2) / 5;
        &&& mp <= 11
        &&& start <= doy
        &&& (mp == 0 ==> start == 0 && doy - start < 31)
        &&& (mp == 1 ==> start == 31 && doy - start < 30)
        &&& (mp == 2 ==> start == 61 && doy - start < 31)
        &&& (mp == 3 ==> start == 92 && doy - start < 30)
        &&& (mp == 4 ==> start == 122 && doy - start < 31)
        &&& (mp == 5 ==> start == 153 && doy - start < 31)
        &&& (mp == 6 ==> start == 184 && doy - start < 30)
        &&& (mp == 7 ==> start == 214 && doy - start < 31)
        &&& (mp == 8 ==> start == 245 && doy - start < 30)
        &&& (mp == 9 ==> start == 275 && doy - start < 31)
        &&& (mp == 10 ==> start == 306 && doy - start < 31)
        &&& (mp == 11 ==> start == 337)
    }) by (bit_vector)
        requires
            doy <= 365,
    ;
}

/// The March-based count: days from 0000-03-01 to March 1st of year
/// `400 * era + yoe`, taken from 1970-01-01, is `days_before_year` plus
/// January and February.
proof fn lemma_era_start(era: int, yoe: int)
    requires
        0 <= yoe <= 399,
    ensures
        days_before_year(400 * era + yoe) + 59 + (if is_leap(400 * era + yoe) { 1int } else { 0int })
            == 146097 * era + 365 * yoe + yoe / 4 - yoe / 100 - 719468,
{
    let y = 400 * era + yoe;
    law_year_length(y);
    assert(leap_years_through(y) - leap_years_through(y - 1) == if is_leap(y) { 1int } else { 0int }) by (nonlinear_arith);
    assert(y == (100 * era + yoe / 4) * 4 + yoe % 4) by (nonlinear_arith)
        requires y == 400 * era + yoe, yoe == 4 * (yoe / 4) + yoe % 4;
    vstd::arithmetic::div_mod::lemma_fundamental_div_mod_converse(y, 4, 100 * era + yoe / 4, yoe % 4);
    assert(y == (4 * era + yoe / 100) * 100 + yoe % 100) by (nonlinear_arith)
        requires y == 400 * era + yoe, yoe == 100 * (yoe / 100) + yoe % 100;
    vstd::arithmetic::div_mod::lemma_fundamental_div_mod_converse(y, 100, 4 * era + yoe / 100, yoe % 100);
    vstd::arithmetic::div_mod::lemma_fundamental_div_mod_converse(y, 400, era, yoe);
    assert(leap_years_through(1969) == 477);
}

/// Whether year `400 * era + yoe + 1` is a leap year, read off `yoe`.
proof fn lemma_next_leap(era: int, yoe: int)
    requires
        0 <= yoe <= 399,
    ensures
        is_leap(400 * era + yoe + 1) == (yoe % 4 == 3 && (yoe % 100 != 99 || yoe == 399)),
{
    let y1 = 400 * era + yoe + 1;
    let t = yoe + 1;
    assert(y1 == (100 * era + t / 4) * 4 + t % 4) by (nonlinear_arith)
        requires y1 == 400 * era + t, t == 4 * (t / 4) + t % 4;
    vstd::arithmetic::div_mod::lemma_fundamental_div_mod_converse(y1, 4, 100 * era + t / 4, t % 4);
    assert(y1 == (4 * era + t / 100) * 100 + t % 100) by (nonlinear_arith)
        requires y1 == 400 * era + t, t == 100 * (t / 100) + t % 100;
    vstd::arithmetic::div_mod::lemma_fundamental_div_mod_converse(y1, 100, 4 * era + t / 100, t % 100);
    assert(y1 == (era + t / 400) * 400 + t % 400) by (nonlinear_arith)
        requires y1 == 400 * era + t, t == 400 * (t / 400) + t % 400;
    vstd::arithmetic::div_mod::lemma_fundamental_div_mod_converse(y1, 400, era + t / 400, t % 400);
}

/// The 400-year era holding day `z` of the March-based count (floor
/// division by 146097) and the day within it.
fn era_of(z: i64) -> (r: (i64, u32))
    requires
        z > i64::MIN,
    ensures
        z as int == 146097 * r.0 + r.1,
        r.1 <= 146096,
        -100_000_000_000_000 <= r.0 <= 100_000_000_000_000,
{
    if z >= 0 {
        let era = z / 146097;
        let doe = z % 146097;
        (era, doe as u32)
    } else {
        let w: i64 = -(z + 1);
        let q = w / 146097;
        let rem = w % 146097;
        let era: i64 = -q - 1;
        let doe: i64 = 146096 - rem;
        assert(z as int == 146097 * era + doe) by (nonlinear_arith)
            requires w == -(z + 1), w == 146097 * q + rem, era == -q - 1, doe == 146096 - rem;
        (era, doe as u32)
    }
}

/// Year, month (1–12) and day (1–31) of the date `days` days after
/// 1970-01-01 (negative: before), in the proleptic Gregorian calendar.
pub fn civil_from_days(days: i64) -> (r: (i64, u32, u32))
    requires
        days <= i64::MAX - 719468,
    ensures
        valid_date(r.0 as int, r.1 as int, r.2 as int),
        days_from_civil(r.0 as int, r.1 as int, r.2 as int) == days,
{
    let z: i64 = days + 719468;
    let (era, doe) = era_of(z);
    proof {
        lemma_year_of_era(doe);
    }
    let yoe: u32 = (doe - doe / 1460 + doe / 36524 - doe / 146096) / 365;
    let base: u32 = 365 * yoe + yoe / 4 - yoe / 100;
    let doy: u32 = doe - base;
    proof {
        lemma_month_of_year(doy);
    }
    let y: i64 = yoe as i64 + era * 400;
    let mp: u32 = (5 * doy + 2) / 153;
    let d: u32 = doy - (153 * mp + 2) / 5 + 1;
    let m: u32 = if mp < 10 { mp + 3 } else { mp - 9 };
    let year: i64 = if mp < 10 { y } else { y + 1 };
    proof {
        let e = era as int;
        let t = yoe as int;
        assert(z as int == 146097 * e + doe as int);
        lemma_era_start(e, t);
        lemma_next_leap(e, t);
        law_year_length(y as int);
    }
    (year, m, d)
}

/// `n` in decimal, left-padded with zeros to `width` digits, appended to `out`.
pub fn push_padded(out: &mut String, n: u64, width: usize)
    ensures
        final(out)@ == old(out)@ + zero_pad(dec(n as nat), width as nat),
{
    let digits = decimal(n);
    let len = digits.as_str().unicode_len();
    let mut k = len;
    while k < width
        invariant
            len == dec(n as nat).len(),
            len <= k <= width || (k == len && len >= width),
            out@ == old(out)@ + Seq::new((k - len) as nat, |i: int| '0'),
        decreases width - k,
    {
        push_char(out, '0');
        k += 1;
        assert(out@ =~= old(out)@ + Seq::new((k - len) as nat, |i: int| '0'));
    }
    out.append(digits.as_str());
    proof {
        if len >= width {
            assert(Seq::new((k - len) as nat, |i: int| '0') =~= Seq::<char>::empty());
            assert(out@ =~= old(out)@ + zero_pad(dec(n as nat), width as nat));
        } else {
            assert(out@ =~= old(out)@ + zero_pad(dec(n as nat), width as nat));
        }
    }
}

/// `YYYY-MM-DDTHH:MM:SSZ` for a date and a time of day.
#[verifier::opaque]
pub open spec fn stamp_text(y: nat, mo: nat, d: nat, h: nat, mi: nat, s: nat) -> Seq<char> {
    zero_pad(dec(y), 4) + "-"@ + zero_pad(dec(mo), 2) + "-"@ + zero_pad(dec(d), 2) + "T"@
        + zero_pad(dec(h), 2) + ":"@ + zero_pad(dec(mi), 2) + ":"@ + zero_pad(dec(s), 2) + "Z"@
}

/// Whether `text` is the RFC 3339 UTC timestamp of `secs` seconds after the
/// epoch, with the date `y`-`mo`-`d`.
pub open spec fn is_stamp_of(text: Seq<char>, secs: u64, y: nat, mo: nat, d: nat) -> bool {
    &&& valid_date(y as int, mo as int, d as int)
    &&& days_from_civil(y as int, mo as int, d as int) == secs / 86400
    &&& text == stamp_text(y, mo, d, ((secs % 86400) / 3600) as nat, ((secs % 3600) / 60) as nat, (secs % 60) as nat)
}

/// Whether `text` is the RFC 3339 UTC timestamp of `secs` seconds after the epoch.
pub open spec fn is_rfc3339_of(text: Seq<char>, secs: u64) -> bool {
    exists|y: nat, mo: nat, d: nat| #[trigger] is_stamp_of(text, secs, y, mo, d)
}

/// The text `stamp_text(y, mo, d, h, mi, s)`.
fn stamp(y: u64, mo: u64, d: u64, h: u64, mi: u64, s: u64) -> (out: String)
    ensures
        out@ == stamp_text(y as nat, mo as nat, d as nat, h as nat, mi as nat, s as nat),
{
    proof {
        reveal(stamp_text);
        reveal_strlit("-");
        reveal_strlit("T");
        reveal_strlit(":");
        reveal_strlit("Z");
    }
    let mut out = String::new();
    push_padded(&mut out, y, 4);
    push_char(&mut out, '-');
    push_padded(&mut out, mo, 2);
    push_char(&mut out, '-');
    push_padded(&mut out, d, 2);
    push_char(&mut out, 'T');
    push_padded(&mut out, h, 2);
    push_char(&mut out, ':');
    push_padded(&mut out, mi, 2);
    push_char(&mut out, ':');
    push_padded(&mut out, s, 2);
    push_char(&mut out, 'Z');
    assert(out@ =~= stamp_text(y as nat, mo as nat, d as nat, h as nat, mi as nat, s as nat));
    out
}

/// The RFC 3339 UTC timestamp (`YYYY-MM-DDTHH:MM:SSZ`) of `secs` seconds after the epoch.
pub fn format_unix_rfc3339(secs: u64) -> (s: String)
    ensures
        is_rfc3339_of(s@, secs),
{
    let days: i64 = (secs / 86400) as i64;
    let time = secs % 86400;
    let (year, month, day) = civil_from_days(days);
    let hour = time / 3600;
    let minute = (time % 3600) / 60;
    let second = time % 60;
    proof {
        lemma_after_epoch(year as int, month as int, day as int);
        lemma_time_of_day(secs);
    }
    let out = stamp(year as u64, month as u64, day as u64, hour, minute, second);
    proof {
        assert(is_stamp_of(out@, secs, year as nat, month as nat, day as nat));
    }
    out
}

/// The hour, minute and second read off the time of day agree with those
/// read off the whole count of seconds.
proof fn lemma_time_of_day(secs: u64)
    ensures
        (secs % 86400) % 3600 == secs % 3600,
        (secs % 86400) % 60 == secs % 60,
{
    vstd::arithmetic::div_mod::lemma_mod_mod(secs as int, 3600, 24);
    vstd::arithmetic::div_mod::lemma_mod_mod(secs as int, 60, 1440);
}

/// A valid date on or after the epoch is in 1970 or later.
proof fn lemma_after_epoch(y: int, m: int, d: int)
    requires
        valid_date(y, m, d),
        days_from_civil(y, m, d) >= 0,
    ensures
        y >= 1970,
{
    if y < 1970 {
        lemma_before_epoch(y, m, d);
    }
}

/// A valid date before 1970 lies before the epoch.
proof fn lemma_before_epoch(y: int, m: int, d: int)
    requires
        y < 1970,
        valid_date(y, m, d),
    ensures
        days_from_civil(y, m, d) < 0,
    decreases 1970 - y,
{
    law_year_length(y);
    if y < 1969 {
        lemma_year_end_before(y);
    }
    assert(days_before_month(y, m) + d - 1 < 365 + if is_leap(y) { 1int } else { 0int });
}

proof fn lemma_year_end_before(y: int)
    requires
        y < 1969,
    ensures
        days_before_year(y + 1) < 0,
    decreases 1969 - y,
{
    law_year_length(y + 1);
    law_year_length(1969);
    if y < 1968 {
        lemma_year_end_before(y + 1);
    }
}

/// Seconds since the epoch from the system clock (`SystemTime::now`); a
/// clock before the epoch reads as 0. Which value comes back is not stated.
#[verifier::external_body]
fn unix_now_secs() -> u64 {
    std::time::SystemTime::now().duration_since(std::time::UNIX_EPOCH).unwrap_or_default().as_secs()
}

/// The current time as an RFC 3339 UTC timestamp.
pub fn rfc3339_now() -> (s: String)
    ensures
        exists|secs: u64| is_rfc3339_of(s@, secs),
{
    let secs = unix_now_secs();
    format_unix_rfc3339(secs)
}

proof fn lemma_days_before_year_mono(a: int, b: int)
    requires
        a <= b,
    ensures
        days_before_year(a) <= days_before_year(b),
    decreases b - a,
{
    if a < b {
        law_year_length(b - 1);
        lemma_days_before_year_mono(a, b - 1);
    }
}

/// A valid date's day of the year falls inside its year.
proof fn lemma_day_in_year(y: int, m: int, d: int)
    requires
        valid_date(y, m, d),
    ensures
        0 <= days_before_month(y, m) + d - 1 < days_before_year(y + 1) - days_before_year(y),
{
    law_year_length(y);
}

/// Within a year, a later month starts after every day of an earlier one.
proof fn lemma_month_order(y: int, m1: int, d1: int, m2: int, d2: int)
    requires
        valid_date(y, m1, d1),
        valid_date(y, m2, d2),
        m1 < m2,
    ensures
        days_before_month(y, m1) + d1 < days_before_month(y, m2) + d2,
{
}

/// Each day number names one calendar date: two valid dates with the same
/// number of days from 1970-01-01 are the same date.
pub proof fn law_one_date_per_day(y1: int, m1: int, d1: int, y2: int, m2: int, d2: int)
    requires
        valid_date(y1, m1, d1),
        valid_date(y2, m2, d2),
        days_from_civil(y1, m1, d1) == days_from_civil(y2, m2, d2),
    ensures
        y1 == y2 && m1 == m2 && d1 == d2,
{
    lemma_day_in_year(y1, m1, d1);
    lemma_day_in_year(y2, m2, d2);
    if y1 < y2 {
        lemma_days_before_year_mono(y1 + 1, y2);
    } else if y2 < y1 {
        lemma_days_before_year_mono(y2 + 1, y1);
    } else if m1 < m2 {
        lemma_month_order(y1, m1, d1, m2, d2);
    } else if m2 < m1 {
        lemma_month_order(y1, m2, d2, m1, d1);
    }
}

/// The RFC 3339 text of a second count is unique.
pub proof fn law_one_text_per_second(a: Seq<char>, b: Seq<char>, secs: u64)
    requires
        is_rfc3339_of(a, secs),
        is_rfc3339_of(b, secs),
    ensures
        a == b,
{
    let (y1, m1, d1) = choose|y: nat, mo: nat, d: nat| is_stamp_of(a, secs, y, mo, d);
    let (y2, m2, d2) = choose|y: nat, mo: nat, d: nat| is_stamp_of(b, secs, y, mo, d);
    law_one_date_per_day(y1 as int, m1 as int, d1 as int, y2 as int, m2 as int, d2 as int);
}

} // verus!
