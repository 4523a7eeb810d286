//! Timestamp extraction from file stems.
//!
//! A capture file's stem starts with a 16-character timestamp of the shape
//! `YYMMDD_HHMMSSmmm`: two digits each for year, month, day, a literal `_`,
//! two digits each for hour, minute, second, and three digits for the
//! millisecond. The two-digit year `00..=68` means `2000..=2068`, and
//! `69..=99` means `1969..=1999`. The date must exist in the Gregorian
//! calendar, the hour is at most 23 and the minute and second at most 59.
//!
//! The extracted instant is a count of milliseconds from the start of the
//! year 1900, so that instants compare and subtract as plain integers.

use vstd::prelude::*;

use crate::StreamError;

verus! {

/// Whether `c` is a decimal digit.
pub open spec fn is_digit(c: char) -> bool {
    48 <= c as u32 && c as u32 <= 57
}

/// The value of the decimal digit `c`.
pub open spec fn digit_val(c: char) -> int {
    (c as u32) as int - 48
}

/// The two-digit number at positions `i` and `i + 1` of `s`.
pub open spec fn two_digits(s: Seq<char>, i: int) -> int
    recommends
        0 <= i && i + 1 < s.len(),
{
    10 * digit_val(s[i]) + digit_val(s[i + 1])
}

/// The three-digit number at positions `i`, `i + 1` and `i + 2` of `s`.
pub open spec fn three_digits(s: Seq<char>, i: int) -> int
    recommends
        0 <= i && i + 2 < s.len(),
{
    100 * digit_val(s[i]) + 10 * digit_val(s[i + 1]) + digit_val(s[i + 2])
}

/// Whether `y` is a leap year of the Gregorian calendar.
pub open spec fn is_leap_year(y: int) -> bool {
    y % 4 == 0 && (y % 100 != 0 || y % 400 == 0)
}

/// The number of days of the year `y`.
pub open spec fn days_in_year(y: int) -> int {
    if is_leap_year(y) {
        366
    } else {
        365
    }
}

/// The number of days of month `m` (1-based) of the year `y`.
pub open spec fn days_in_month(y: int, m: int) -> int
    recommends
        1 <= m <= 12,
{
    if m == 2 {
        if is_leap_year(y) {
            29
        } else {
            28
        }
    } else if m == 4 || m == 6 || m == 9 || m == 11 {
        30
    } else {
        31
    }
}

/// The number of days from the start of 1900 to the start of the year `y`.
pub open spec fn days_before_year(y: int) -> int
    recommends
        y >= 1900,
    decreases y - 1900,
{
    if y <= 1900 {
        0
    } else {
        days_before_year(y - 1) + days_in_year(y - 1)
    }
}

/// The number of days from the start of the year `y` to the start of its
/// month `m` (1-based).
pub open spec fn days_before_month(y: int, m: int) -> int
    recommends
        1 <= m <= 12,
    decreases m,
{
    if m <= 1 {
        0
    } else {
        days_before_month(y, m - 1) + days_in_month(y, m - 1)
    }
}

/// The number of days from 1900-01-01 to the date `y`-`m`-`d`.
pub open spec fn day_index(y: int, m: int, d: int) -> int {
    days_before_year(y) + days_before_month(y, m) + (d - 1)
}

/// The year meant by the two-digit year `yy`.
pub open spec fn year_of_two_digit(yy: int) -> int {
    if yy <= 68 {
        2000 + yy
    } else {
        1900 + yy
    }
}

/// The year field of the stem `s`.
pub open spec fn stem_year(s: Seq<char>) -> int {
    year_of_two_digit(two_digits(s, 0))
}

/// The month field of the stem `s`.
pub open spec fn stem_month(s: Seq<char>) -> int {
    two_digits(s, 2)
}

/// The day field of the stem `s`.
pub open spec fn stem_day(s: Seq<char>) -> int {
    two_digits(s, 4)
}

/// The hour field of the stem `s`.
pub open spec fn stem_hour(s: Seq<char>) -> int {
    two_digits(s, 7)
}

/// The minute field of the stem `s`.
pub open spec fn stem_minute(s: Seq<char>) -> int {
    two_digits(s, 9)
}

/// The second field of the stem `s`.
pub open spec fn stem_second(s: Seq<char>) -> int {
    two_digits(s, 11)
}

/// The millisecond field of the stem `s`.
pub open spec fn stem_millis(s: Seq<char>) -> int {
    three_digits(s, 13)
}

/// Whether the first 16 characters of `s` are a well-formed
/// `YYMMDD_HHMMSSmmm` timestamp.
pub open spec fn stem_matches(s: Seq<char>) -> bool {
    &&& s.len() >= 16
    &&& (forall|i: int| 0 <= i < 16 && i != 6 ==> is_digit(#[trigger] s[i]))
    &&& s[6] == '_'
    &&& 1 <= stem_month(s) <= 12
    &&& 1 <= stem_day(s) <= days_in_month(stem_year(s), stem_month(s))
    &&& stem_hour(s) <= 23
    &&& stem_minute(s) <= 59
    &&& stem_second(s) <= 59
}

/// The instant encoded by a well-formed stem `s`, in milliseconds from the
/// start of 1900.
pub open spec fn stem_timestamp_ms(s: Seq<char>) -> int {
    day_index(stem_year(s), stem_month(s), stem_day(s)) * 86400000 + stem_hour(s) * 3600000
        + stem_minute(s) * 60000 + stem_second(s) * 1000 + stem_millis(s)
}

/// Reads the digit at position `i` of `s`.
fn digit_at(s: &str, i: usize) -> (r: Option<u64>)
    requires
        i < s@.len(),
    ensures
        r is Some <==> is_digit(s@[i as int]),
        r is Some ==> r->Some_0 == digit_val(s@[i as int]),
{
    let c = s.get_char(i);
    let v = c as u32;
    if 48 <= v && v <= 57 {
        Some((v - 48) as u64)
    } else {
        None
    }
}

/// Reads the two-digit number at positions `i` and `i + 1` of `s`.
fn two_digits_at(s: &str, i: usize) -> (r: Option<u64>)
    requires
        i <= 14,
        i + 1 < s@.len(),
    ensures
        r is Some <==> is_digit(s@[i as int]) && is_digit(s@[i as int + 1]),
        r is Some ==> r->Some_0 == two_digits(s@, i as int),
{
    match digit_at(s, i) {
        None => None,
        Some(a) => match digit_at(s, i + 1) {
            None => None,
            Some(b) => Some(10 * a + b),
        },
    }
}

/// Reads the three-digit number at positions `i` .. `i + 2` of `s`.
fn three_digits_at(s: &str, i: usize) -> (r: Option<u64>)
    requires
        i <= 13,
        i + 2 < s@.len(),
    ensures
        r is Some <==> is_digit(s@[i as int]) && is_digit(s@[i as int + 1]) && is_digit(
            s@[i as int + 2],
        ),
        r is Some ==> r->Some_0 == three_digits(s@, i as int),
{
    match two_digits_at(s, i) {
        None => None,
        Some(a) => match digit_at(s, i + 2) {
            None => None,
            Some(b) => Some(10 * a + b),
        },
    }
}

/// Whether the year `y` is a leap year.
fn leap_year(y: u64) -> (b: bool)
    ensures
        b == is_leap_year(y as int),
{
    y % 4 == 0 && (y % 100 != 0 || y % 400 == 0)
}

/// The number of days of month `m` of the year `y`.
fn month_length(y: u64, m: u64) -> (d: u64)
    requires
        1 <= m <= 12,
    ensures
        d == days_in_month(y as int, m as int),
        28 <= d <= 31,
{
    if m == 2 {
        if leap_year(y) {
            29
        } else {
            28
        }
    } else if m == 4 || m == 6 || m == 9 || m == 11 {
        30
    } else {
        31
    }
}

/// The number of days from the start of 1900 to the start of the year `y`.
fn days_to_year(y: u64) -> (d: u64)
    requires
        1900 <= y <= 2100,
    ensures
        d == days_before_year(y as int),
        d <= 366 * (y - 1900),
{
    let mut i: u64 = 1900;
    let mut d: u64 = 0;
    while i < y
        invariant
            1900 <= i <= y <= 2100,
            d == days_before_year(i as int),
            d <= 366 * (i - 1900),
        decreases y - i,
    {
        if leap_year(i) {
            d = d + 366;
        } else {
            d = d + 365;
        }
        i = i + 1;
    }
    d
}

/// The number of days from the start of the year `y` to the start of its
/// month `m`.
fn days_to_month(y: u64, m: u64) -> (d: u64)
    requires
        1 <= m <= 12,
    ensures
        d == days_before_month(y as int, m as int),
        d <= 366,
{
    let mut i: u64 = 1;
    let mut d: u64 = 0;
    while i < m
        invariant
            1 <= i <= m <= 12,
            d == days_before_month(y as int, i as int),
            d <= 31 * (i - 1),
        decreases m - i,
    {
        d = d + month_length(y, i);
        i = i + 1;
    }
    d
}

/// The `ParseError` that reports a malformed stem.
fn parse_error(stem: &str) -> (e: StreamError)
    ensures
        e matches StreamError::ParseError { stem: t } && t@ == stem@,
{
    StreamError::ParseError { stem: stem.to_owned() }
}

/// Parses the capture instant from the first 16 characters of `stem`,
/// which must match `YYMMDD_HHMMSSmmm`; anything after them is ignored.
/// A stem shorter than 16 characters or one whose prefix does not match the
/// pattern is rejected with a `ParseError` naming the stem.
pub fn extract_timestamp(stem: &str) -> (r: Result<u64, StreamError>)
    ensures
        r is Ok <==> stem_matches(stem@),
        r is Ok ==> r->Ok_0 == stem_timestamp_ms(stem@),
        r is Err ==> (r->Err_0 matches StreamError::ParseError { stem: t } && t@ == stem@),
{
    if stem.unicode_len() < 16 {
        return Err(parse_error(stem));
    }
    let yy = match two_digits_at(stem, 0) {
        Some(v) => v,
        None => {
            return Err(parse_error(stem));
        },
    };
    let mo = match two_digits_at(stem, 2) {
        Some(v) => v,
        None => {
            return Err(parse_error(stem));
        },
    };
    let dy = match two_digits_at(stem, 4) {
        Some(v) => v,
        None => {
            return Err(parse_error(stem));
        },
    };
    if stem.get_char(6) != '_' {
        return Err(parse_error(stem));
    }
    let hh = match two_digits_at(stem, 7) {
        Some(v) => v,
        None => {
            return Err(parse_error(stem));
        },
    };
    let mi = match two_digits_at(stem, 9) {
        Some(v) => v,
        None => {
            return Err(parse_error(stem));
        },
    };
    let ss = match two_digits_at(stem, 11) {
        Some(v) => v,
        None => {
            return Err(parse_error(stem));
        },
    };
    let ms = match three_digits_at(stem, 13) {
        Some(v) => v,
        None => {
            return Err(parse_error(stem));
        },
    };
    let yr: u64 = if yy <= 68 {
        2000 + yy
    } else {
        1900 + yy
    };
    if mo < 1 || mo > 12 {
        return Err(parse_error(stem));
    }
    if dy < 1 || dy > month_length(yr, mo) {
        return Err(parse_error(stem));
    }
    if hh > 23 || mi > 59 || ss > 59 {
        return Err(parse_error(stem));
    }
    let days: u64 = days_to_year(yr) + days_to_month(yr, mo) + (dy - 1);
    let ts: u64 = days * 86400000 + hh * 3600000 + mi * 60000 + ss * 1000 + ms;
    proof {
        assert forall|i: int| 0 <= i < 16 && i != 6 implies is_digit(#[trigger] stem@[i]) by {
            assert(is_digit(stem@[0]) && is_digit(stem@[1]) && is_digit(stem@[2]) && is_digit(
                stem@[3],
            ) && is_digit(stem@[4]) && is_digit(stem@[5]) && is_digit(stem@[7]) && is_digit(
                stem@[8],
            ) && is_digit(stem@[9]) && is_digit(stem@[10]) && is_digit(stem@[11]) && is_digit(
                stem@[12],
            ) && is_digit(stem@[13]) && is_digit(stem@[14]) && is_digit(stem@[15]));
        }
    }
    Ok(ts)
}

} // verus!
