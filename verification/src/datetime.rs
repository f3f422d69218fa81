//! Calendar validity and the RFC 3339 text of UTC timestamps, through `chrono`.
use vstd::prelude::*;

verus! {

/// Proleptic Gregorian leap year.
pub open spec fn is_leap(y: int) -> bool {
    y % 4 == 0 && (y % 100 != 0 || y % 400 == 0)
}

pub open spec fn days_in_month(y: int, m: int) -> int {
    if m == 2 {
        if is_leap(y) {
            29
        } else {
            28
        }
    } else if m == 4 || m == 6 || m == 9 || m == 11 {
        30
    } else {
        31
    }
}

/// `chrono::NaiveDate::from_ymd_opt(y, m, d)` is `Some`: the day exists and the
/// year is within chrono's range (`-262143 ..= 262142`).
pub open spec fn valid_ymd(y: int, m: int, d: int) -> bool {
    &&& -262143 <= y <= 262142
    &&& 1 <= m <= 12
    &&& 1 <= d <= days_in_month(y, m)
}

/// `chrono::NaiveTime::from_hms_opt(h, mi, s)` is `Some`.
pub open spec fn valid_hms(h: int, mi: int, s: int) -> bool {
    0 <= h < 24 && 0 <= mi < 60 && 0 <= s < 60
}

pub open spec fn digit_char(d: int) -> char {
    (48 + d) as char
}

/// Decimal digits of `n`, without leading zeros.
pub open spec fn dec(n: nat) -> Seq<char>
    decreases n,
{
    if n < 10 {
        seq![digit_char(n as int)]
    } else {
        dec(n / 10) + seq![digit_char((n % 10) as int)]
    }
}

/// `s` left-padded with `'0'` up to width `w`.
pub open spec fn zpad(s: Seq<char>, w: nat) -> Seq<char> {
    if s.len() >= w {
        s
    } else {
        Seq::new((w - s.len()) as nat, |i: int| '0') + s
    }
}

/// The year as chrono writes it in RFC 3339: four digits for `0..=9999`,
/// otherwise an explicit sign and at least four digits.
pub open spec fn year_text(y: int) -> Seq<char> {
    if 0 <= y <= 9999 {
        zpad(dec(y as nat), 4)
    } else if y < 0 {
        seq!['-'] + zpad(dec((-y) as nat), 4)
    } else {
        seq!['+'] + zpad(dec(y as nat), 4)
    }
}

pub open spec fn two_digits(n: int) -> Seq<char> {
    zpad(dec(n as nat), 2)
}

/// `YYYY-MM-DDTHH:MM:SS+00:00`: the RFC 3339 text of a UTC date and time
/// with whole seconds.
pub open spec fn rfc3339_utc(y: int, mo: int, d: int, h: int, mi: int, s: int) -> Seq<char> {
    year_text(y) + seq!['-'] + two_digits(mo) + seq!['-'] + two_digits(d) + seq!['T']
        + two_digits(h) + seq![':'] + two_digits(mi) + seq![':'] + two_digits(s) + seq![
        '+',
        '0',
        '0',
        ':',
        '0',
        '0',
    ]
}

/// The date and the time of day both exist for chrono.
pub open spec fn valid_datetime(year: i32, month: u32, day: u32, hour: u32, minute: u32, second: u32) -> bool {
    valid_ymd(year as int, month as int, day as int) && valid_hms(hour as int, minute as int, second as int)
}

/// `rfc3339_utc` of machine integers.
pub open spec fn datetime_text(year: i32, month: u32, day: u32, hour: u32, minute: u32, second: u32) -> Seq<char> {
    rfc3339_utc(year as int, month as int, day as int, hour as int, minute as int, second as int)
}

/// Calls `chrono::NaiveDate::from_ymd_opt` and `NaiveTime::from_hms_opt`, joins
/// them into a `NaiveDateTime`, reads it as UTC and renders it with
/// `DateTime::to_rfc3339`. The contract claims what chrono's documentation and
/// source show: `Some` exactly for a real calendar day within chrono's year
/// range and a time of day without leap second, rendered as
/// `YYYY-MM-DDTHH:MM:SS+00:00` (no fraction since there are no nanoseconds).
#[verifier::external_body]
pub(crate) fn utc_rfc3339(
    year: i32,
    month: u32,
    day: u32,
    hour: u32,
    minute: u32,
    second: u32,
) -> (r: Option<String>)
    ensures
        r is Some <==> valid_datetime(year, month, day, hour, minute, second),
        r matches Some(t) ==> t@ == datetime_text(year, month, day, hour, minute, second),
{
    let date = chrono::NaiveDate::from_ymd_opt(year, month, day)?;
    let time = chrono::NaiveTime::from_hms_opt(hour, minute, second)?;
    Some(chrono::NaiveDateTime::new(date, time).and_utc().to_rfc3339())
}

} // verus!
