//! Calendar arithmetic for display: a millisecond timestamp written as an
//! ISO 8601 UTC date-time, the approximate reading of an ISO 8601 timestamp
//! back into seconds, and a duration written in hours, minutes and seconds.
use vstd::prelude::*;
use vstd::string::StringSliceAdditionalSpecFns;
use vstd::utf8::encode_utf8;
use crate::text::{decimal_text, two_digit_text, push_decimal, push_two_digits, digit_char};
use vstd::utf8::{is_ascii_chars, is_ascii_chars_encode_utf8};

verus! {

/// Gregorian leap year.
pub open spec fn is_leap_year(y: int) -> bool {
    y % 4 == 0 && (y % 100 != 0 || y % 400 == 0)
}

/// The number of days in year `y`.
pub open spec fn days_in_year(y: int) -> int {
    if is_leap_year(y) {
        366
    } else {
        365
    }
}

/// The number of days in month `m` (1 to 12) of year `y`.
pub open spec fn days_in_month(y: int, m: int) -> int {
    if m == 2 {
        if is_leap_year(y) {
            29
        } else {
            28
        }
    } else if m == 4 || m == 6 || m == 9 || m == 11 {
        30
    } else {
        31
    }
}

/// The number of days from 1 January 1970 to 1 January of year `y`.
pub open spec fn days_before_year(y: int) -> int
    decreases y - 1970,
{
    if y <= 1970 {
        0
    } else {
        days_before_year(y - 1) + days_in_year(y - 1)
    }
}

/// The number of days in year `y` before the first day of month `m`.
pub open spec fn days_before_month(y: int, m: int) -> int
    decreases m,
{
    if m <= 1 {
        0
    } else {
        days_before_month(y, m - 1) + days_in_month(y, m - 1)
    }
}

/// `y`-`m`-`d` is a date of the Gregorian calendar, from 1970 on.
pub open spec fn is_calendar_date(y: int, m: int, d: int) -> bool {
    &&& y >= 1970
    &&& 1 <= m <= 12
    &&& 1 <= d <= days_in_month(y, m)
}

/// The number of days from 1 January 1970 to the date `y`-`m`-`d`.
pub open spec fn day_number(y: int, m: int, d: int) -> int {
    days_before_year(y) + days_before_month(y, m) + d - 1
}

/// The calendar date of day `n` counted from 1 January 1970.
pub open spec fn calendar_date(n: int) -> (int, int, int) {
    choose|y: int, m: int, d: int| is_calendar_date(y, m, d) && day_number(y, m, d) == n
}

/// A year is at least 365 days long, and the days before it grow with it.
pub proof fn lemma_days_before_year_grows(y: int, z: int)
    requires
        1970 <= y <= z,
    ensures
        days_before_year(z) >= days_before_year(y) + 365 * (z - y),
    decreases z - y,
{
    if y < z {
        lemma_days_before_year_grows(y, z - 1);
    }
}

/// The months before month 13 fill the year exactly, and the days before
/// a month grow with the month.
pub proof fn lemma_days_before_month(y: int, m: int)
    requires
        1 <= m <= 13,
    ensures
        days_before_month(y, 13) == days_in_year(y),
        m <= 12 ==> days_before_month(y, m) + days_in_month(y, m) == days_before_month(y, m + 1),
        days_before_month(y, m) <= days_in_year(y),
{
    reveal_with_fuel(days_before_month, 13);
}

/// A day number names exactly one calendar date.
pub proof fn lemma_calendar_date_unique(y1: int, m1: int, d1: int, y2: int, m2: int, d2: int)
    requires
        is_calendar_date(y1, m1, d1),
        is_calendar_date(y2, m2, d2),
        day_number(y1, m1, d1) == day_number(y2, m2, d2),
    ensures
        y1 == y2 && m1 == m2 && d1 == d2,
{
    assert(y1 == y2) by {
        if y1 < y2 {
            lemma_year_before(y1, m1, d1, y2, m2, d2);
        } else if y2 < y1 {
            lemma_year_before(y2, m2, d2, y1, m1, d1);
        }
    }
    assert(m1 == m2) by {
        if m1 < m2 {
            lemma_month_before(y1, m1, d1, m2, d2);
        } else if m2 < m1 {
            lemma_month_before(y1, m2, d2, m1, d1);
        }
    }
}

/// Every date of an earlier year has a smaller day number.
proof fn lemma_year_before(y1: int, m1: int, d1: int, y2: int, m2: int, d2: int)
    requires
        is_calendar_date(y1, m1, d1),
        is_calendar_date(y2, m2, d2),
        y1 < y2,
    ensures
        day_number(y1, m1, d1) < day_number(y2, m2, d2),
{
    lemma_days_before_month(y1, m1);
    lemma_days_before_month(y1, m1 + 1);
    lemma_month_days_fit(y1, m1);
    lemma_days_before_year_grows(y1 + 1, y2);
    lemma_days_before_month_monotone(y2, 1, m2);
    assert(days_before_year(y1 + 1) == days_before_year(y1) + days_in_year(y1));
}

/// A month ends within its year.
proof fn lemma_month_days_fit(y: int, m: int)
    requires
        1 <= m <= 12,
    ensures
        days_before_month(y, m) + days_in_month(y, m) <= days_in_year(y),
{
    lemma_days_before_month(y, m);
    lemma_days_before_month(y, m + 1);
    if m + 1 < 13 {
        lemma_days_before_month_monotone(y, m + 1, 13);
    }
}

/// The days before a month grow with the month.
proof fn lemma_days_before_month_monotone(y: int, m: int, n: int)
    requires
        1 <= m <= n <= 13,
    ensures
        days_before_month(y, m) <= days_before_month(y, n),
    decreases n - m,
{
    if m < n {
        lemma_days_before_month_monotone(y, m, n - 1);
        assert(days_before_month(y, n) == days_before_month(y, n - 1) + days_in_month(y, n - 1));
    }
}

/// Within a year, every date of an earlier month has a smaller day number.
proof fn lemma_month_before(y: int, m1: int, d1: int, m2: int, d2: int)
    requires
        is_calendar_date(y, m1, d1),
        is_calendar_date(y, m2, d2),
        m1 < m2,
    ensures
        day_number(y, m1, d1) < day_number(y, m2, d2),
{
    lemma_days_before_month(y, m1);
    lemma_days_before_month_monotone(y, m1 + 1, m2);
}

/// The date-time `y`-`mo`-`d`T`h`:`mi`:`s`Z, the year in full and every other
/// field in two digits.
pub open spec fn iso_utc_text(y: nat, mo: nat, d: nat, h: nat, mi: nat, s: nat) -> Seq<char> {
    decimal_text(y) + seq!['-'] + two_digit_text(mo) + seq!['-'] + two_digit_text(d) + seq!['T']
        + two_digit_text(h) + seq![':'] + two_digit_text(mi) + seq![':'] + two_digit_text(s)
        + seq!['Z']
}

/// The UTC date-time of the millisecond timestamp `ms` (counted from
/// 1970-01-01T00:00:00Z), to the whole second.
pub open spec fn utc_timestamp_text(ms: nat) -> Seq<char> {
    let secs = ms / 1000;
    let date = calendar_date((secs / 86400) as int);
    let t = secs % 86400;
    iso_utc_text(
        date.0 as nat,
        date.1 as nat,
        date.2 as nat,
        t / 3600,
        (t % 3600) / 60,
        t % 60,
    )
}

/// Every day count from 1970 on is the day number of its calendar date.
pub proof fn lemma_calendar_date_of(n: int, y: int, m: int, d: int)
    requires
        is_calendar_date(y, m, d),
        day_number(y, m, d) == n,
    ensures
        calendar_date(n) == (y, m, d),
{
    assert(is_calendar_date(y, m, d) && day_number(y, m, d) == n);
    let date = calendar_date(n);
    assert(is_calendar_date(date.0, date.1, date.2) && day_number(date.0, date.1, date.2) == n);
    lemma_calendar_date_unique(date.0, date.1, date.2, y, m, d);
}

/// The date of day `n` lies in month `m` or a later month of year `y`.
proof fn lemma_date_from_month(n: int, y: int, m: int)
    requires
        y >= 1970,
        1 <= m <= 12,
        days_before_year(y) + days_before_month(y, m) <= n < days_before_year(y) + days_in_year(y),
    ensures
        is_calendar_date(calendar_date(n).0, calendar_date(n).1, calendar_date(n).2),
        day_number(calendar_date(n).0, calendar_date(n).1, calendar_date(n).2) == n,
    decreases 12 - m,
{
    lemma_days_before_month(y, m);
    lemma_days_before_month(y, m + 1);
    let r = n - days_before_year(y) - days_before_month(y, m);
    if r < days_in_month(y, m) {
        lemma_calendar_date_of(n, y, m, r + 1);
    } else {
        if m == 12 {
            assert(days_before_month(y, 13) == days_in_year(y));
        }
        lemma_date_from_month(n, y, m + 1);
    }
}

/// The date of day `n` lies in year `y` or a later year.
proof fn lemma_date_from_year(n: int, y: int)
    requires
        y >= 1970,
        days_before_year(y) <= n,
    ensures
        is_calendar_date(calendar_date(n).0, calendar_date(n).1, calendar_date(n).2),
        day_number(calendar_date(n).0, calendar_date(n).1, calendar_date(n).2) == n,
    decreases n - days_before_year(y),
{
    if n < days_before_year(y) + days_in_year(y) {
        lemma_days_before_month(y, 1);
        lemma_date_from_month(n, y, 1);
    } else {
        assert(days_before_year(y + 1) == days_before_year(y) + days_in_year(y));
        lemma_date_from_year(n, y + 1);
    }
}

/// Every day from 1 January 1970 on has a calendar date.
pub proof fn lemma_calendar_date_exists(n: int)
    requires
        n >= 0,
    ensures
        is_calendar_date(calendar_date(n).0, calendar_date(n).1, calendar_date(n).2),
        day_number(calendar_date(n).0, calendar_date(n).1, calendar_date(n).2) == n,
{
    lemma_date_from_year(n, 1970);
}

/// Writes the millisecond timestamp `ms` as an ISO 8601 UTC date-time,
/// `YYYY-MM-DDTHH:MM:SSZ`, dropping the milliseconds.
pub fn format_timestamp_ms(ms: u64) -> (res: String)
    ensures
        res@ == utc_timestamp_text(ms as nat),
{
    let secs = ms / 1000;
    let days_since_epoch = secs / 86400;

    let mut year: u64 = 1970;
    let mut remaining_days = days_since_epoch;
    loop
        invariant
            1970 <= year,
            days_before_year(year as int) + remaining_days == days_since_epoch,
            days_since_epoch <= u64::MAX / 86400,
        ensures
            1970 <= year,
            days_before_year(year as int) + remaining_days == days_since_epoch,
            remaining_days < days_in_year(year as int),
        decreases remaining_days,
    {
        let is_leap = year % 4 == 0 && (year % 100 != 0 || year % 400 == 0);
        let days_in_this_year: u64 = if is_leap {
            366
        } else {
            365
        };
        if remaining_days < days_in_this_year {
            break;
        }
        proof {
            lemma_days_before_year_grows(1970, year as int);
        }
        remaining_days = remaining_days - days_in_this_year;
        year = year + 1;
    }
    let ghost day_of_year = remaining_days;
    proof {
        lemma_days_before_month(year as int, 1);
    }

    let is_leap = year % 4 == 0 && (year % 100 != 0 || year % 400 == 0);
    let mut month: u64 = 1;
    loop
        invariant
            1 <= month <= 12,
            days_before_month(year as int, month as int) + remaining_days == day_of_year,
            day_of_year < days_in_year(year as int),
            is_leap == is_leap_year(year as int),
        ensures
            1 <= month <= 12,
            days_before_month(year as int, month as int) + remaining_days == day_of_year,
            remaining_days < days_in_month(year as int, month as int),
        decreases 12 - month,
    {
        let dim: u64 = if month == 2 {
            if is_leap {
                29
            } else {
                28
            }
        } else if month == 4 || month == 6 || month == 9 || month == 11 {
            30
        } else {
            31
        };
        if remaining_days < dim {
            break;
        }
        proof {
            lemma_days_before_month(year as int, month as int);
            lemma_days_before_month(year as int, month as int + 1);
        }
        remaining_days = remaining_days - dim;
        month = month + 1;
    }

    let day = remaining_days + 1;
    let time_of_day = secs % 86400;
    let hour = time_of_day / 3600;
    let minute = (time_of_day % 3600) / 60;
    let second = time_of_day % 60;
    proof {
        lemma_calendar_date_of(days_since_epoch as int, year as int, month as int, day as int);
    }

    let mut out = String::new();
    push_decimal(&mut out, year);
    proof {
        reveal_strlit("-");
        reveal_strlit("T");
        reveal_strlit(":");
        reveal_strlit("Z");
        assert("-"@ == seq!['-']);
        assert("T"@ == seq!['T']);
        assert(":"@ == seq![':']);
        assert("Z"@ == seq!['Z']);
    }
    out.append("-");
    push_two_digits(&mut out, month);
    out.append("-");
    push_two_digits(&mut out, day);
    out.append("T");
    push_two_digits(&mut out, hour);
    out.append(":");
    push_two_digits(&mut out, minute);
    out.append(":");
    push_two_digits(&mut out, second);
    out.append("Z");
    out
}

/// The day of the year on which month `month` starts, counted from 0,
/// in a year that is not a leap year; 0 for a number that is no month.
pub open spec fn month_offset(month: int) -> int {
    if month == 1 {
        0
    } else if month == 2 {
        31
    } else if month == 3 {
        59
    } else if month == 4 {
        90
    } else if month == 5 {
        120
    } else if month == 6 {
        151
    } else if month == 7 {
        181
    } else if month == 8 {
        212
    } else if month == 9 {
        243
    } else if month == 10 {
        273
    } else if month == 11 {
        304
    } else if month == 12 {
        334
    } else {
        0
    }
}

/// The month offsets are those of the calendar in a common year.
pub proof fn law_month_offset_is_common_year_calendar(month: int)
    requires
        1 <= month <= 12,
    ensures
        month_offset(month) == days_before_month(1971, month),
{
    reveal_with_fuel(days_before_month, 13);
}

/// The days before `month` in a year that is not a leap year (0 for no month).
pub fn month_day_offset(month: u64) -> (days: u64)
    ensures
        days == month_offset(month as int),
{
    match month {
        1 => 0,
        2 => 31,
        3 => 59,
        4 => 90,
        5 => 120,
        6 => 151,
        7 => 181,
        8 => 212,
        9 => 243,
        10 => 273,
        11 => 304,
        12 => 334,
        _ => 0,
    }
}

/// The characters with the Unicode White_Space property.
pub open spec fn is_unicode_whitespace(c: char) -> bool {
    ||| '\u{9}' <= c <= '\u{d}'
    ||| c == ' '
    ||| c == '\u{85}'
    ||| c == '\u{a0}'
    ||| c == '\u{1680}'
    ||| '\u{2000}' <= c <= '\u{200a}'
    ||| c == '\u{2028}'
    ||| c == '\u{2029}'
    ||| c == '\u{202f}'
    ||| c == '\u{205f}'
    ||| c == '\u{3000}'
}

/// `s` without its leading white space.
pub open spec fn trim_start_whitespace(s: Seq<char>) -> Seq<char>
    decreases s.len(),
{
    if s.len() > 0 && is_unicode_whitespace(s[0]) {
        trim_start_whitespace(s.drop_first())
    } else {
        s
    }
}

/// `s` without its trailing white space.
pub open spec fn trim_end_whitespace(s: Seq<char>) -> Seq<char>
    decreases s.len(),
{
    if s.len() > 0 && is_unicode_whitespace(s.last()) {
        trim_end_whitespace(s.drop_last())
    } else {
        s
    }
}

/// `s` without leading and trailing white space.
pub open spec fn trim_whitespace(s: Seq<char>) -> Seq<char> {
    trim_end_whitespace(trim_start_whitespace(s))
}

/// `str::trim`: the string without leading and trailing white space.
/// Trusted: std documents that `trim` removes leading and trailing characters
/// with the Unicode White_Space property (`char::is_whitespace`), which is
/// what `trim_whitespace` states.
#[verifier::external_body]
fn trim_str(s: &str) -> (t: &str)
    ensures
        t@ == trim_whitespace(s@),
{
    s.trim()
}

/// A UTF-8 continuation byte: one that falls inside a multi-byte character.
pub open spec fn is_continuation(b: u8) -> bool {
    0x80 <= b < 0xc0
}

/// Byte offset `i` of `bytes` is the start or the end of a character, so
/// that a string may be sliced there.
pub open spec fn is_boundary(bytes: Seq<u8>, i: int) -> bool {
    &&& 0 <= i <= bytes.len()
    &&& (i == bytes.len() || !is_continuation(bytes[i]))
}

/// The value of a string of ASCII decimal digits.
pub open spec fn digits_value(digits: Seq<u8>) -> nat
    decreases digits.len(),
{
    if digits.len() == 0 {
        0
    } else {
        digits_value(digits.drop_last()) * 10 + (digits.last() - 48) as nat
    }
}

/// What `u64::from_str` reads from a short string given by its bytes:
/// an optional `+` followed by at least one ASCII digit, and nothing else.
pub open spec fn unsigned_field(field: Seq<u8>) -> Option<nat> {
    if sign_stripped(field).len() > 0 && all_digits(sign_stripped(field)) {
        Some(digits_value(sign_stripped(field)))
    } else {
        None
    }
}

/// The bytes without one leading `+`.
pub open spec fn sign_stripped(field: Seq<u8>) -> Seq<u8> {
    if field.len() > 0 && field[0] == 43 {
        field.drop_first()
    } else {
        field
    }
}

/// Every byte is an ASCII decimal digit.
pub open spec fn all_digits(bytes: Seq<u8>) -> bool {
    forall|i: int| 0 <= i < bytes.len() ==> 48 <= #[trigger] bytes[i] <= 57
}

/// How slicing and reading one field of a timestamp turns out.
pub enum FieldScan {
    /// The slice does not fall on character boundaries: slicing panics.
    SlicePanics,
    /// The slice is not an unsigned integer.
    NotNumber,
    /// The slice reads as this number.
    Number(nat),
}

/// Slicing bytes `lo..hi` of `bytes` and reading them as an unsigned integer.
pub open spec fn scan_field(bytes: Seq<u8>, lo: int, hi: int) -> FieldScan {
    if !(is_boundary(bytes, lo) && is_boundary(bytes, hi)) {
        FieldScan::SlicePanics
    } else {
        match unsigned_field(bytes.subrange(lo, hi)) {
            Some(v) => FieldScan::Number(v),
            None => FieldScan::NotNumber,
        }
    }
}

/// How reading a timestamp turns out.
#[derive(Clone, Copy, Debug, PartialEq, Eq, Structural)]
pub enum IsoScan {
    /// Reading it panics: a field slice splits a character, the year is
    /// before 1970, or the day count falls below zero.
    Panics,
    /// Reading it ends with this result.
    Read(Option<u64>),
}

/// The approximate day count of a date: 365 days a year plus one for every
/// fourth year since 1969, the month's start in a common year, the day.
pub open spec fn approx_days(year: int, month: int, day: int) -> int {
    (year - 1970) * 365 + (year - 1969) / 4 + month_offset(month) + day - 1
}

/// From 1970 to 2100 a year is a leap year exactly when it is divisible by 4,
/// so the days before it are 365 a year plus one for every fourth year.
proof fn lemma_days_before_year_closed_form(y: int)
    requires
        1970 <= y <= 2100,
    ensures
        days_before_year(y) == (y - 1970) * 365 + (y - 1969) / 4,
    decreases y - 1970,
{
    if y > 1970 {
        lemma_days_before_year_closed_form(y - 1);
    }
}

/// The approximate day count of `parse_iso_timestamp_approx` is the calendar's
/// for every date from 1970 through 2100, except from March on in a leap year,
/// where it is one day short.
pub proof fn law_approx_days_match_calendar(y: int, m: int, d: int)
    requires
        is_calendar_date(y, m, d),
        y <= 2100,
    ensures
        approx_days(y, m, d) == day_number(y, m, d) - (if is_leap_year(y) && m > 2 {
            1int
        } else {
            0int
        }),
{
    lemma_days_before_year_closed_form(y);
    reveal_with_fuel(days_before_month, 13);
}

/// The outcome of reading the time fields once the date fields are read.
pub open spec fn scan_time(bytes: Seq<u8>, year: nat, month: nat, day: nat) -> IsoScan {
    match scan_field(bytes, 11, 13) {
        FieldScan::SlicePanics => IsoScan::Panics,
        FieldScan::NotNumber => IsoScan::Read(None),
        FieldScan::Number(hour) => match scan_field(bytes, 14, 16) {
            FieldScan::SlicePanics => IsoScan::Panics,
            FieldScan::NotNumber => IsoScan::Read(None),
            FieldScan::Number(min) => match scan_field(bytes, 17, 19) {
                FieldScan::SlicePanics => IsoScan::Panics,
                FieldScan::NotNumber => IsoScan::Read(None),
                FieldScan::Number(sec) => if year < 1970 || approx_days(year as int, month as int, day as int) < 0 {
                    IsoScan::Panics
                } else {
                    IsoScan::Read(
                        Some(
                            (approx_days(year as int, month as int, day as int) * 86400 + hour * 3600 + min * 60
                                + sec) as u64,
                        ),
                    )
                },
            },
        },
    }
}

/// How reading the timestamp `ts` as seconds since 1970 turns out: after
/// trimming white space it must be at least 19 bytes long, and the byte
/// slices 0..4, 5..7, 8..10, 11..13, 14..16 and 17..19 are read in turn as
/// year, month, day, hour, minute and second; the first that is not an
/// unsigned integer ends the reading with no result.
pub open spec fn iso_scan(ts: Seq<char>) -> IsoScan {
    let bytes = encode_utf8(trim_whitespace(ts));
    if bytes.len() < 19 {
        IsoScan::Read(None)
    } else {
        match scan_field(bytes, 0, 4) {
            FieldScan::SlicePanics => IsoScan::Panics,
            FieldScan::NotNumber => IsoScan::Read(None),
            FieldScan::Number(year) => match scan_field(bytes, 5, 7) {
                FieldScan::SlicePanics => IsoScan::Panics,
                FieldScan::NotNumber => IsoScan::Read(None),
                FieldScan::Number(month) => match scan_field(bytes, 8, 10) {
                    FieldScan::SlicePanics => IsoScan::Panics,
                    FieldScan::NotNumber => IsoScan::Read(None),
                    FieldScan::Number(day) => scan_time(bytes, year, month, day),
                },
            },
        }
    }
}

/// Whether offset `i` of `bytes` starts or ends a character.
fn boundary_at(bytes: &[u8], i: usize) -> (b: bool)
    requires
        i <= bytes@.len(),
    ensures
        b == is_boundary(bytes@, i as int),
{
    i == bytes.len() || !(0x80 <= bytes[i] && bytes[i] < 0xc0)
}

/// Reads bytes `lo..hi` as `u64::from_str` reads a string of at most four bytes.
fn read_unsigned(bytes: &[u8], lo: usize, hi: usize) -> (r: Option<u64>)
    requires
        lo <= hi <= bytes@.len(),
        hi - lo <= 4,
    ensures
        match r {
            Some(v) => unsigned_field(bytes@.subrange(lo as int, hi as int)) == Some(v as nat)
                && v < 10000,
            None => unsigned_field(bytes@.subrange(lo as int, hi as int)) is None,
        },
{
    let ghost field = bytes@.subrange(lo as int, hi as int);
    let start = if lo < hi && bytes[lo] == 43 {
        lo + 1
    } else {
        lo
    };
    let ghost digits = bytes@.subrange(start as int, hi as int);
    proof {
        if lo < hi && bytes@[lo as int] == 43 {
            assert(field.drop_first() =~= digits);
        } else {
            assert(field =~= digits);
        }
    }
    if start == hi {
        return None;
    }
    let mut value: u64 = 0;
    let mut j = start;
    while j < hi
        invariant
            start <= j <= hi <= bytes@.len(),
            hi - start <= 4,
            digits == bytes@.subrange(start as int, hi as int),
            field == bytes@.subrange(lo as int, hi as int),
            sign_stripped(field) == digits,
            digits.len() > 0,
            forall|k: int| start <= k < j ==> 48 <= #[trigger] bytes@[k] <= 57,
            value == digits_value(bytes@.subrange(start as int, j as int)),
            value < pow10((j - start) as nat),
        decreases hi - j,
    {
        let b = bytes[j];
        if b < 48 || b > 57 {
            proof {
                assert(digits[j - start] == b);
                assert(!all_digits(digits));
            }
            return None;
        }
        proof {
            assert(bytes@.subrange(start as int, j + 1).drop_last() =~= bytes@.subrange(
                start as int,
                j as int,
            ));
            assert(pow10((j + 1 - start) as nat) == 10 * pow10((j - start) as nat));
            reveal_with_fuel(pow10, 5);
            assert(pow10((j - start) as nat) <= 1000);
        }
        value = value * 10 + (b - 48) as u64;
        j = j + 1;
    }
    proof {
        assert(bytes@.subrange(start as int, hi as int) == digits);
        assert forall|i: int| 0 <= i < digits.len() implies 48 <= #[trigger] digits[i] <= 57 by {
            assert(digits[i] == bytes@[start + i]);
        }
        reveal_with_fuel(pow10, 5);
    }
    Some(value)
}

/// 10 to the power `n`.
pub open spec fn pow10(n: nat) -> nat
    decreases n,
{
    if n == 0 {
        1
    } else {
        10 * pow10((n - 1) as nat)
    }
}

/// Reads the ISO 8601 timestamp `ts` as seconds since 1970, and tells
/// when doing so as `parse_iso_timestamp_approx` does would panic.
pub fn scan_iso_timestamp(ts: &str) -> (res: IsoScan)
    ensures
        res == iso_scan(ts@),
{
    let t = trim_str(ts);
    let bytes = t.as_bytes();
    if bytes.len() < 19 {
        return IsoScan::Read(None);
    }
    if !(boundary_at(bytes, 0) && boundary_at(bytes, 4)) {
        return IsoScan::Panics;
    }
    let year = match read_unsigned(bytes, 0, 4) {
        Some(v) => v,
        None => return IsoScan::Read(None),
    };
    if !(boundary_at(bytes, 5) && boundary_at(bytes, 7)) {
        return IsoScan::Panics;
    }
    let month = match read_unsigned(bytes, 5, 7) {
        Some(v) => v,
        None => return IsoScan::Read(None),
    };
    if !(boundary_at(bytes, 8) && boundary_at(bytes, 10)) {
        return IsoScan::Panics;
    }
    let day = match read_unsigned(bytes, 8, 10) {
        Some(v) => v,
        None => return IsoScan::Read(None),
    };
    if !(boundary_at(bytes, 11) && boundary_at(bytes, 13)) {
        return IsoScan::Panics;
    }
    let hour = match read_unsigned(bytes, 11, 13) {
        Some(v) => v,
        None => return IsoScan::Read(None),
    };
    if !(boundary_at(bytes, 14) && boundary_at(bytes, 16)) {
        return IsoScan::Panics;
    }
    let min = match read_unsigned(bytes, 14, 16) {
        Some(v) => v,
        None => return IsoScan::Read(None),
    };
    if !(boundary_at(bytes, 17) && boundary_at(bytes, 19)) {
        return IsoScan::Panics;
    }
    let sec = match read_unsigned(bytes, 17, 19) {
        Some(v) => v,
        None => return IsoScan::Read(None),
    };
    if year < 1970 {
        return IsoScan::Panics;
    }
    let day_count = (year - 1970) * 365 + (year - 1969) / 4 + month_day_offset(month) + day;
    if day_count == 0 {
        return IsoScan::Panics;
    }
    let days = day_count - 1;
    IsoScan::Read(Some(days * 86400 + hour * 3600 + min * 60 + sec))
}

/// Reads an ISO 8601 timestamp such as `2026-03-02T14:30:00Z` as seconds
/// since 1970, approximately: every fourth year since 1969 counts as a leap
/// year and months are counted as in a common year, which is enough for the
/// difference of two timestamps. Anything after the seconds is ignored.
pub fn parse_iso_timestamp_approx(ts: &str) -> (secs: Option<u64>)
    requires
        !(iso_scan(ts@) is Panics),
    ensures
        IsoScan::Read(secs) == iso_scan(ts@),
{
    match scan_iso_timestamp(ts) {
        IsoScan::Read(secs) => secs,
        IsoScan::Panics => None,
    }
}

/// A number below 100 in two digits.
proof fn lemma_two_digits(n: nat)
    requires
        n < 100,
    ensures
        two_digit_text(n) == seq![digit_char((n / 10) as int), digit_char((n % 10) as int)],
{
    if n >= 10 {
        reveal_with_fuel(decimal_text, 2);
        assert(decimal_text(n / 10) == seq![digit_char((n / 10) as int)]);
        assert(decimal_text(n) =~= seq![digit_char((n / 10) as int), digit_char((n % 10) as int)]);
    }
}

/// A number of four digits.
proof fn lemma_four_digits(n: nat)
    requires
        1000 <= n < 10000,
    ensures
        decimal_text(n) == seq![
            digit_char((n / 1000) as int),
            digit_char((n / 100 % 10) as int),
            digit_char((n / 10 % 10) as int),
            digit_char((n % 10) as int),
        ],
{
    let a = n / 10;
    let b = a / 10;
    let c = b / 10;
    assert(c == n / 1000 && b % 10 == n / 100 % 10 && c < 10 && b >= 10 && a >= 10);
    assert(decimal_text(c) == seq![digit_char(c as int)]);
    assert(decimal_text(b) == seq![digit_char(c as int)].push(digit_char((b % 10) as int)));
    assert(decimal_text(a) == decimal_text(b).push(digit_char((a % 10) as int)));
    assert(decimal_text(n) == decimal_text(a).push(digit_char((n % 10) as int)));
    assert(decimal_text(n) =~= seq![
        digit_char((n / 1000) as int),
        digit_char((n / 100 % 10) as int),
        digit_char((n / 10 % 10) as int),
        digit_char((n % 10) as int),
    ]);
}

/// Two digit bytes read as their value.
proof fn lemma_two_digit_field(bytes: Seq<u8>, lo: int, v: nat)
    requires
        v < 100,
        0 <= lo,
        lo + 2 <= bytes.len(),
        bytes[lo] == 48 + v / 10,
        bytes[lo + 1] == 48 + v % 10,
        lo + 2 == bytes.len() || bytes[lo + 2] < 0x80,
    ensures
        scan_field(bytes, lo, lo + 2) == FieldScan::Number(v),
{
    let f = bytes.subrange(lo, lo + 2);
    assert(sign_stripped(f) == f);
    reveal_with_fuel(digits_value, 3);
    assert(f.drop_last().drop_last() =~= Seq::<u8>::empty());
    assert(f.drop_last() =~= seq![f[0]]);
}

/// Four digit bytes read as their value.
proof fn lemma_four_digit_field(bytes: Seq<u8>, v: nat)
    requires
        1000 <= v < 10000,
        4 < bytes.len(),
        bytes[0] == 48 + v / 1000,
        bytes[1] == 48 + v / 100 % 10,
        bytes[2] == 48 + v / 10 % 10,
        bytes[3] == 48 + v % 10,
        bytes[4] < 0x80,
    ensures
        scan_field(bytes, 0, 4) == FieldScan::Number(v),
{
    let f = bytes.subrange(0, 4);
    assert(sign_stripped(f) == f);
    reveal_with_fuel(digits_value, 5);
    assert(f.drop_last().drop_last().drop_last().drop_last() =~= Seq::<u8>::empty());
    assert(f.drop_last().drop_last().drop_last() =~= seq![f[0]]);
    assert(f.drop_last().drop_last() =~= seq![f[0], f[1]]);
    assert(f.drop_last() =~= seq![f[0], f[1], f[2]]);
    assert(v == 1000 * (v / 1000) + 100 * (v / 100 % 10) + 10 * (v / 10 % 10) + v % 10);
}

/// The characters of a date-time text with a four-digit year.
proof fn lemma_iso_text_chars(yn: nat, mn: nat, dn: nat, h: nat, mi: nat, s: nat)
    requires
        1000 <= yn < 10000,
        mn < 100,
        dn < 100,
        h < 100,
        mi < 100,
        s < 100,
    ensures
        iso_utc_text(yn, mn, dn, h, mi, s) == seq![
            digit_char((yn / 1000) as int),
            digit_char((yn / 100 % 10) as int),
            digit_char((yn / 10 % 10) as int),
            digit_char((yn % 10) as int),
            '-',
            digit_char((mn / 10) as int),
            digit_char((mn % 10) as int),
            '-',
            digit_char((dn / 10) as int),
            digit_char((dn % 10) as int),
            'T',
            digit_char((h / 10) as int),
            digit_char((h % 10) as int),
            ':',
            digit_char((mi / 10) as int),
            digit_char((mi % 10) as int),
            ':',
            digit_char((s / 10) as int),
            digit_char((s % 10) as int),
            'Z',
        ],
{
    lemma_four_digits(yn);
    lemma_two_digits(mn);
    lemma_two_digits(dn);
    lemma_two_digits(h);
    lemma_two_digits(mi);
    lemma_two_digits(s);
    assert(iso_utc_text(yn, mn, dn, h, mi, s) =~= seq![
        digit_char((yn / 1000) as int),
        digit_char((yn / 100 % 10) as int),
        digit_char((yn / 10 % 10) as int),
        digit_char((yn % 10) as int),
        '-',
        digit_char((mn / 10) as int),
        digit_char((mn % 10) as int),
        '-',
        digit_char((dn / 10) as int),
        digit_char((dn % 10) as int),
        'T',
        digit_char((h / 10) as int),
        digit_char((h % 10) as int),
        ':',
        digit_char((mi / 10) as int),
        digit_char((mi % 10) as int),
        ':',
        digit_char((s / 10) as int),
        digit_char((s % 10) as int),
        'Z',
    ]);
}

/// Reading a date-time text with a four-digit year gives back its fields.
#[verifier::spinoff_prover]
#[verifier::rlimit(60)]
proof fn lemma_iso_text_scan(yn: nat, mn: nat, dn: nat, h: nat, mi: nat, s: nat)
    requires
        1000 <= yn < 10000,
        mn < 100,
        dn < 100,
        h < 100,
        mi < 100,
        s < 100,
    ensures
        iso_scan(iso_utc_text(yn, mn, dn, h, mi, s)) == scan_time(
            encode_utf8(iso_utc_text(yn, mn, dn, h, mi, s)),
            yn,
            mn,
            dn,
        ),
        scan_field(encode_utf8(iso_utc_text(yn, mn, dn, h, mi, s)), 11, 13) == FieldScan::Number(h),
        scan_field(encode_utf8(iso_utc_text(yn, mn, dn, h, mi, s)), 14, 16) == FieldScan::Number(mi),
        scan_field(encode_utf8(iso_utc_text(yn, mn, dn, h, mi, s)), 17, 19) == FieldScan::Number(s),
{
    let c = iso_utc_text(yn, mn, dn, h, mi, s);
    lemma_iso_text_chars(yn, mn, dn, h, mi, s);
    assert(trim_start_whitespace(c) == c);
    assert(trim_end_whitespace(c) == c);
    assert(is_ascii_chars(c));
    is_ascii_chars_encode_utf8(c);
    let bytes = encode_utf8(c);
    assert(bytes.len() == 20);
    assert(trim_whitespace(c) == c);
    assert(bytes[0] == c[0] as u8 && bytes[1] == c[1] as u8 && bytes[2] == c[2] as u8
        && bytes[3] == c[3] as u8 && bytes[4] == c[4] as u8 && bytes[5] == c[5] as u8
        && bytes[6] == c[6] as u8 && bytes[7] == c[7] as u8 && bytes[8] == c[8] as u8
        && bytes[9] == c[9] as u8 && bytes[10] == c[10] as u8 && bytes[11] == c[11] as u8
        && bytes[12] == c[12] as u8 && bytes[13] == c[13] as u8 && bytes[14] == c[14] as u8
        && bytes[15] == c[15] as u8 && bytes[16] == c[16] as u8 && bytes[17] == c[17] as u8
        && bytes[18] == c[18] as u8 && bytes[19] == c[19] as u8);
    lemma_four_digit_field(bytes, yn);
    lemma_two_digit_field(bytes, 5, mn);
    lemma_two_digit_field(bytes, 8, dn);
    lemma_two_digit_field(bytes, 11, h);
    lemma_two_digit_field(bytes, 14, mi);
    lemma_two_digit_field(bytes, 17, s);
}

/// Reading back a written timestamp gives its seconds: for a time whose date
/// falls from 1970 through 2100, and not from March on in a leap year (where
/// the approximate reading is one day short), `parse_iso_timestamp_approx`
/// of `format_timestamp_ms(ms)` is `ms / 1000`.
#[verifier::spinoff_prover]
pub proof fn law_timestamp_round_trip(ms: nat)
    requires
        ms <= u64::MAX,
        calendar_date((ms / 1000 / 86400) as int).0 <= 2100,
        !(is_leap_year(calendar_date((ms / 1000 / 86400) as int).0) && calendar_date(
            (ms / 1000 / 86400) as int,
        ).1 > 2),
    ensures
        iso_scan(utc_timestamp_text(ms)) == IsoScan::Read(Some((ms / 1000) as u64)),
{
    lemma_calendar_date_exists((ms / 1000 / 86400) as int);
    let (y, m, d) = calendar_date((ms / 1000 / 86400) as int);
    let secs = ms / 1000;
    let n = secs / 86400;
    let t = secs % 86400;
    let h = t / 3600;
    let mi = (t % 3600) / 60;
    let s = t % 60;
    lemma_calendar_date_of(n as int, y, m, d);
    assert(d <= 31) by {
        assert(days_in_month(y, m) <= 31);
    }
    assert(utc_timestamp_text(ms) == iso_utc_text(y as nat, m as nat, d as nat, h, mi, s));
    lemma_iso_text_scan(y as nat, m as nat, d as nat, h, mi, s);
    law_approx_days_match_calendar(y, m, d);
    assert(approx_days(y, m, d) == n);
    assert(n * 86400 + h * 3600 + mi * 60 + s == secs);
}

/// `a` comes no later than `b` in dictionary order of their characters (for
/// ASCII text, the byte order in which Rust compares strings).
pub open spec fn text_le(a: Seq<char>, b: Seq<char>) -> bool
    decreases a.len(),
{
    if a.len() == 0 {
        true
    } else if b.len() == 0 {
        false
    } else if a[0] != b[0] {
        a[0] < b[0]
    } else {
        text_le(a.drop_first(), b.drop_first())
    }
}

/// Dictionary order on texts that start with parts of the same length is
/// decided by those parts when they differ, and by the rest otherwise.
proof fn lemma_text_le_concat(p: Seq<char>, q: Seq<char>, a: Seq<char>, b: Seq<char>)
    requires
        p.len() == q.len(),
    ensures
        text_le(p + a, q + b) == (if p == q {
            text_le(a, b)
        } else {
            text_le(p, q)
        }),
    decreases p.len(),
{
    if p.len() == 0 {
        assert(p + a =~= a);
        assert(q + b =~= b);
        assert(p =~= q);
    } else {
        assert((p + a).drop_first() =~= p.drop_first() + a);
        assert((q + b).drop_first() =~= q.drop_first() + b);
        lemma_text_le_concat(p.drop_first(), q.drop_first(), a, b);
        if p[0] == q[0] && p.drop_first() == q.drop_first() {
            assert forall|i: int| 0 <= i < p.len() implies p[i] == q[i] by {
                if i > 0 {
                    assert(p[i] == p.drop_first()[i - 1]);
                    assert(q[i] == q.drop_first()[i - 1]);
                }
            }
            assert(p =~= q);
        }
    }
}

/// Two-digit fields compare as their numbers.
proof fn lemma_two_digits_order(x: nat, y: nat)
    requires
        x < 100,
        y < 100,
    ensures
        two_digit_text(x) == two_digit_text(y) <==> x == y,
        text_le(two_digit_text(x), two_digit_text(y)) <==> x <= y,
{
    lemma_two_digits(x);
    lemma_two_digits(y);
    let a = two_digit_text(x);
    let b = two_digit_text(y);
    assert(a.drop_first().drop_first().len() == 0);
    reveal_with_fuel(text_le, 3);
    if a == b {
        assert(a[0] == b[0] && a[1] == b[1]);
    }
    assert(x == 10 * (x / 10) + x % 10);
    assert(y == 10 * (y / 10) + y % 10);
}

/// Numbers of four decimal digits compare as their digits do, from the left.
proof fn lemma_digits_lex(x: nat, y: nat)
    requires
        1000 <= x < 10000,
        1000 <= y < 10000,
    ensures
        x <= y <==> (x / 1000 < y / 1000 || (x / 1000 == y / 1000 && (x / 100 % 10 < y / 100 % 10
            || (x / 100 % 10 == y / 100 % 10 && (x / 10 % 10 < y / 10 % 10 || (x / 10 % 10 == y
            / 10 % 10 && x % 10 <= y % 10)))))),
        x == y <==> (x / 1000 == y / 1000 && x / 100 % 10 == y / 100 % 10 && x / 10 % 10 == y / 10
            % 10 && x % 10 == y % 10),
{
    lemma_four_digit_places(x);
    lemma_four_digit_places(y);
    lemma_digit_places(
        (x / 1000) as int,
        (x / 100 % 10) as int,
        (x / 10 % 10) as int,
        (x % 10) as int,
        (y / 1000) as int,
        (y / 100 % 10) as int,
        (y / 10 % 10) as int,
        (y % 10) as int,
    );
}

/// A number of four digits is the sum of its digits in place.
proof fn lemma_four_digit_places(x: nat)
    requires
        1000 <= x < 10000,
    ensures
        x == 1000 * (x / 1000) + 100 * (x / 100 % 10) + 10 * (x / 10 % 10) + x % 10,
        x / 1000 < 10,
{
    let q = x / 10;
    let r = q / 10;
    assert(x == 10 * q + x % 10);
    assert(q == 10 * r + q % 10);
    assert(x / 100 == r) by (nonlinear_arith)
        requires
            x == 10 * q + x % 10,
            q == 10 * r + q % 10,
            0 <= x % 10 < 10,
            0 <= q % 10 < 10,
    ;
    assert(x / 1000 == r / 10) by (nonlinear_arith)
        requires
            x == 10 * q + x % 10,
            q == 10 * r + q % 10,
            0 <= x % 10 < 10,
            0 <= q % 10 < 10,
    ;
}

/// Four decimal digits in place, compared from the left.
proof fn lemma_digit_places(a: int, b: int, c: int, d: int, e: int, f: int, g: int, h: int)
    requires
        0 <= a < 10 && 0 <= b < 10 && 0 <= c < 10 && 0 <= d < 10,
        0 <= e < 10 && 0 <= f < 10 && 0 <= g < 10 && 0 <= h < 10,
    ensures
        1000 * a + 100 * b + 10 * c + d <= 1000 * e + 100 * f + 10 * g + h <==> (a < e || (a == e
            && (b < f || (b == f && (c < g || (c == g && d <= h)))))),
        1000 * a + 100 * b + 10 * c + d == 1000 * e + 100 * f + 10 * g + h <==> (a == e && b == f
            && c == g && d == h),
{
}

/// Four-digit fields compare as their numbers.
proof fn lemma_four_digits_order(x: nat, y: nat)
    requires
        1000 <= x < 10000,
        1000 <= y < 10000,
    ensures
        decimal_text(x) == decimal_text(y) <==> x == y,
        text_le(decimal_text(x), decimal_text(y)) <==> x <= y,
{
    lemma_four_digits(x);
    lemma_four_digits(y);
    lemma_digits_lex(x, y);
    let a = decimal_text(x);
    let b = decimal_text(y);
    let a1 = a.drop_first();
    let b1 = b.drop_first();
    let a2 = a1.drop_first();
    let b2 = b1.drop_first();
    let a3 = a2.drop_first();
    let b3 = b2.drop_first();
    assert(a3.drop_first().len() == 0);
    assert(text_le(a3, b3) == (a3[0] != b3[0] ==> a3[0] < b3[0])) by {
        reveal_with_fuel(text_le, 2);
    }
    assert(text_le(a2, b2) == (if a2[0] != b2[0] { a2[0] < b2[0] } else { text_le(a3, b3) }));
    assert(text_le(a1, b1) == (if a1[0] != b1[0] { a1[0] < b1[0] } else { text_le(a2, b2) }));
    assert(text_le(a, b) == (if a[0] != b[0] { a[0] < b[0] } else { text_le(a1, b1) }));
    if a == b {
        assert(a[0] == b[0] && a[1] == b[1] && a[2] == b[2] && a[3] == b[3]);
    }
}

/// A date and time of day, field by field, is no later than another.
pub open spec fn moment_le(a: (nat, nat, nat, nat, nat, nat), b: (nat, nat, nat, nat, nat, nat)) -> bool {
    ||| a.0 < b.0
    ||| a.0 == b.0 && a.1 < b.1
    ||| a.0 == b.0 && a.1 == b.1 && a.2 < b.2
    ||| a.0 == b.0 && a.1 == b.1 && a.2 == b.2 && a.3 < b.3
    ||| a.0 == b.0 && a.1 == b.1 && a.2 == b.2 && a.3 == b.3 && a.4 < b.4
    ||| a.0 == b.0 && a.1 == b.1 && a.2 == b.2 && a.3 == b.3 && a.4 == b.4 && a.5 <= b.5
}

/// Date-time texts with four-digit years compare as their fields do.
#[verifier::spinoff_prover]
proof fn lemma_iso_text_order(a: (nat, nat, nat, nat, nat, nat), b: (nat, nat, nat, nat, nat, nat))
    requires
        1000 <= a.0 < 10000,
        1000 <= b.0 < 10000,
        a.1 < 100 && a.2 < 100 && a.3 < 100 && a.4 < 100 && a.5 < 100,
        b.1 < 100 && b.2 < 100 && b.3 < 100 && b.4 < 100 && b.5 < 100,
    ensures
        text_le(iso_utc_text(a.0, a.1, a.2, a.3, a.4, a.5), iso_utc_text(b.0, b.1, b.2, b.3, b.4, b.5))
            == moment_le(a, b),
{
    let z = seq!['Z'];
    let c = seq![':'];
    let t = seq!['T'];
    let h = seq!['-'];
    let s1 = two_digit_text(a.5) + z;
    let s2 = two_digit_text(b.5) + z;
    let mi1 = two_digit_text(a.4) + (c + s1);
    let mi2 = two_digit_text(b.4) + (c + s2);
    let h1 = two_digit_text(a.3) + (c + mi1);
    let h2 = two_digit_text(b.3) + (c + mi2);
    let d1 = two_digit_text(a.2) + (t + h1);
    let d2 = two_digit_text(b.2) + (t + h2);
    let m1 = two_digit_text(a.1) + (h + d1);
    let m2 = two_digit_text(b.1) + (h + d2);
    let y1 = decimal_text(a.0) + (h + m1);
    let y2 = decimal_text(b.0) + (h + m2);
    lemma_four_digits(a.0);
    lemma_four_digits(b.0);
    lemma_two_digits(a.1);
    lemma_two_digits(b.1);
    lemma_two_digits(a.2);
    lemma_two_digits(b.2);
    lemma_two_digits(a.3);
    lemma_two_digits(b.3);
    lemma_two_digits(a.4);
    lemma_two_digits(b.4);
    lemma_two_digits(a.5);
    lemma_two_digits(b.5);
    assert(iso_utc_text(a.0, a.1, a.2, a.3, a.4, a.5) =~= y1);
    assert(iso_utc_text(b.0, b.1, b.2, b.3, b.4, b.5) =~= y2);
    assert(text_le(z, z)) by {
        reveal_with_fuel(text_le, 2);
    }
    lemma_two_digits_order(a.5, b.5);
    lemma_text_le_concat(two_digit_text(a.5), two_digit_text(b.5), z, z);
    lemma_text_le_concat(c, c, s1, s2);
    lemma_two_digits_order(a.4, b.4);
    lemma_text_le_concat(two_digit_text(a.4), two_digit_text(b.4), c + s1, c + s2);
    lemma_text_le_concat(c, c, mi1, mi2);
    lemma_two_digits_order(a.3, b.3);
    lemma_text_le_concat(two_digit_text(a.3), two_digit_text(b.3), c + mi1, c + mi2);
    lemma_text_le_concat(t, t, h1, h2);
    lemma_two_digits_order(a.2, b.2);
    lemma_text_le_concat(two_digit_text(a.2), two_digit_text(b.2), t + h1, t + h2);
    lemma_text_le_concat(h, h, d1, d2);
    lemma_two_digits_order(a.1, b.1);
    lemma_text_le_concat(two_digit_text(a.1), two_digit_text(b.1), h + d1, h + d2);
    lemma_text_le_concat(h, h, m1, m2);
    lemma_four_digits_order(a.0, b.0);
    lemma_text_le_concat(decimal_text(a.0), decimal_text(b.0), h + m1, h + m2);
}

/// Of two day counts, the earlier one's date comes no later, field by field.
proof fn lemma_date_order(n1: int, n2: int)
    requires
        0 <= n1 <= n2,
    ensures
        ({
            let (y1, m1, d1) = calendar_date(n1);
            let (y2, m2, d2) = calendar_date(n2);
            &&& y1 <= y2
            &&& n1 < n2 ==> (y1 < y2 || (y1 == y2 && m1 < m2) || (y1 == y2 && m1 == m2 && d1 < d2))
        }),
{
    lemma_calendar_date_exists(n1);
    lemma_calendar_date_exists(n2);
    let (y1, m1, d1) = calendar_date(n1);
    let (y2, m2, d2) = calendar_date(n2);
    if y2 < y1 {
        lemma_year_before(y2, m2, d2, y1, m1, d1);
    }
    if n1 < n2 && y1 == y2 && m2 < m1 {
        lemma_month_before(y1, m2, d2, m1, d1);
    }
}

/// Within a day, an earlier time of day comes no later, field by field.
proof fn lemma_time_of_day_order(t1: nat, t2: nat)
    requires
        t1 <= t2 < 86400,
    ensures
        t1 / 3600 < t2 / 3600 || (t1 / 3600 == t2 / 3600 && (t1 % 3600) / 60 < (t2 % 3600) / 60)
            || (t1 / 3600 == t2 / 3600 && (t1 % 3600) / 60 == (t2 % 3600) / 60 && t1 % 60 <= t2
            % 60),
{
    assert(t1 == 3600 * (t1 / 3600) + 60 * ((t1 % 3600) / 60) + t1 % 60);
    assert(t2 == 3600 * (t2 / 3600) + 60 * ((t2 % 3600) / 60) + t2 % 60);
}

/// Text order follows time order: of two times before the year 10000, the
/// earlier one is written as a text that comes no later.
#[verifier::spinoff_prover]
pub proof fn law_timestamp_text_order(ms1: nat, ms2: nat)
    requires
        ms1 <= ms2,
        calendar_date((ms2 / 1000 / 86400) as int).0 <= 9999,
    ensures
        text_le(utc_timestamp_text(ms1), utc_timestamp_text(ms2)),
{
    let secs1 = ms1 / 1000;
    let secs2 = ms2 / 1000;
    assert(secs1 <= secs2) by (nonlinear_arith)
        requires
            ms1 <= ms2,
            secs1 == ms1 / 1000,
            secs2 == ms2 / 1000,
    ;
    let n1 = secs1 / 86400;
    let n2 = secs2 / 86400;
    assert(n1 <= n2) by (nonlinear_arith)
        requires
            secs1 <= secs2,
            n1 == secs1 / 86400,
            n2 == secs2 / 86400,
    ;
    let t1 = secs1 % 86400;
    let t2 = secs2 % 86400;
    lemma_calendar_date_exists(n1 as int);
    lemma_calendar_date_exists(n2 as int);
    lemma_date_order(n1 as int, n2 as int);
    let (y1, m1, d1) = calendar_date(n1 as int);
    let (y2, m2, d2) = calendar_date(n2 as int);
    assert(d1 <= 31 && d2 <= 31) by {
        assert(days_in_month(y1, m1) <= 31 && days_in_month(y2, m2) <= 31);
    }
    if n1 == n2 {
        lemma_time_of_day_order(t1, t2);
    }
    let a = (y1 as nat, m1 as nat, d1 as nat, t1 / 3600, (t1 % 3600) / 60, t1 % 60);
    let b = (y2 as nat, m2 as nat, d2 as nat, t2 / 3600, (t2 % 3600) / 60, t2 % 60);
    assert(moment_le(a, b));
    lemma_iso_text_order(a, b);
}

/// A duration of `dur` seconds as `{h}h {m}m {s}s`, leaving out the hours
/// when there are none, and the minutes too when there are none of either.
pub open spec fn duration_text(dur: nat) -> Seq<char> {
    let hours = dur / 3600;
    let minutes = (dur % 3600) / 60;
    let seconds = dur % 60;
    if hours > 0 {
        decimal_text(hours) + seq!['h', ' '] + decimal_text(minutes) + seq!['m', ' ']
            + decimal_text(seconds) + seq!['s']
    } else if minutes > 0 {
        decimal_text(minutes) + seq!['m', ' '] + decimal_text(seconds) + seq!['s']
    } else {
        decimal_text(seconds) + seq!['s']
    }
}

/// A duration is written as whole hours, minutes under 60 and seconds under
/// 60 that add up to it: `{h}h {m}m {s}s`, or `{m}m {s}s` when there are no
/// hours, or `{s}s` when there are neither hours nor minutes.
pub proof fn law_duration_text_names_its_parts(dur: nat)
    ensures
        exists|h: nat, m: nat, s: nat|
            #![trigger decimal_text(h), decimal_text(m), decimal_text(s)]
            {
                &&& h * 3600 + m * 60 + s == dur
                &&& m < 60
                &&& s < 60
                &&& duration_text(dur) == if h > 0 {
                    decimal_text(h) + seq!['h', ' '] + decimal_text(m) + seq!['m', ' ']
                        + decimal_text(s) + seq!['s']
                } else if m > 0 {
                    decimal_text(m) + seq!['m', ' '] + decimal_text(s) + seq!['s']
                } else {
                    decimal_text(s) + seq!['s']
                }
            },
{
    let h = dur / 3600;
    let m = (dur % 3600) / 60;
    let s = dur % 60;
    assert(h * 3600 + m * 60 + s == dur);
    assert(decimal_text(h) == decimal_text(h) && decimal_text(m) == decimal_text(m)
        && decimal_text(s) == decimal_text(s));
}

/// Writes a duration of `dur` seconds in hours, minutes and seconds.
pub fn format_duration(dur: u64) -> (res: String)
    ensures
        res@ == duration_text(dur as nat),
{
    let hours = dur / 3600;
    let minutes = (dur % 3600) / 60;
    let seconds = dur % 60;
    proof {
        reveal_strlit("h ");
        reveal_strlit("m ");
        reveal_strlit("s");
        assert("h "@ == seq!['h', ' ']);
        assert("m "@ == seq!['m', ' ']);
        assert("s"@ == seq!['s']);
    }
    let mut out = String::new();
    if hours > 0 {
        push_decimal(&mut out, hours);
        out.append("h ");
        push_decimal(&mut out, minutes);
        out.append("m ");
    } else if minutes > 0 {
        push_decimal(&mut out, minutes);
        out.append("m ");
    }
    push_decimal(&mut out, seconds);
    out.append("s");
    out
}

} // verus!
