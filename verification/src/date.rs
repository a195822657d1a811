//! Calendar dates and the strict `YYYY-MM-DD` date format.

use vstd::prelude::*;
use vstd::string::StrSliceExecFns;

use crate::text::digit_val;
use crate::text::is_digit;

verus! {

/// A calendar date: year, month and day, with no time component.
#[derive(Clone, Copy, Debug, PartialEq, Eq, Structural)]
pub struct Date {
    pub year: u32,
    pub month: u32,
    pub day: u32,
}

/// Whether `y` is a leap year in the Gregorian calendar.
pub open spec fn spec_is_leap_year(y: int) -> bool {
    y % 4 == 0 && (y % 100 != 0 || y % 400 == 0)
}

/// The number of days of month `m` in year `y`.
pub open spec fn spec_days_in_month(y: int, m: int) -> int {
    if m == 2 {
        if spec_is_leap_year(y) {
            29
        } else {
            28
        }
    } else if m == 4 || m == 6 || m == 9 || m == 11 {
        30
    } else {
        31
    }
}

/// A possible calendar date with a four-digit year.
pub open spec fn date_valid(d: Date) -> bool {
    &&& d.year <= 9999
    &&& 1 <= d.month <= 12
    &&& 1 <= d.day <= spec_days_in_month(d.year as int, d.month as int)
}

/// The date a field in the strict zero-padded format `YYYY-MM-DD` denotes,
/// or nothing when the field deviates from that format or names an
/// impossible calendar date.
pub open spec fn spec_parse_date(t: Seq<char>) -> Option<Date> {
    if t.len() == 10 && is_digit(t[0]) && is_digit(t[1]) && is_digit(t[2]) && is_digit(t[3]) && t[4]
        == '-' && is_digit(t[5]) && is_digit(t[6]) && t[7] == '-' && is_digit(t[8]) && is_digit(
        t[9],
    ) {
        let d = Date {
            year: (digit_val(t[0]) * 1000 + digit_val(t[1]) * 100 + digit_val(t[2]) * 10
                + digit_val(t[3])) as u32,
            month: (digit_val(t[5]) * 10 + digit_val(t[6])) as u32,
            day: (digit_val(t[8]) * 10 + digit_val(t[9])) as u32,
        };
        if 1 <= d.month <= 12 && 1 <= d.day <= spec_days_in_month(d.year as int, d.month as int) {
            Some(d)
        } else {
            None
        }
    } else {
        None
    }
}

/// A parsed date is a possible calendar date.
pub proof fn lemma_parse_date_valid(t: Seq<char>)
    ensures
        spec_parse_date(t) matches Some(d) ==> date_valid(d),
{
}

/// Whether `y` is a leap year.
pub fn is_leap_year(y: u32) -> (r: bool)
    ensures
        r == spec_is_leap_year(y as int),
{
    y % 4 == 0 && (y % 100 != 0 || y % 400 == 0)
}

/// The number of days of month `m` in year `y`.
pub fn days_in_month(y: u32, m: u32) -> (r: u32)
    ensures
        r == spec_days_in_month(y as int, m as int),
{
    if m == 2 {
        if is_leap_year(y) {
            29
        } else {
            28
        }
    } else if m == 4 || m == 6 || m == 9 || m == 11 {
        30
    } else {
        31
    }
}

/// Reads the decimal digit at position `i` of `t`, or nothing when the
/// character there is no digit.
fn digit_at(t: &str, i: usize) -> (r: Option<u32>)
    requires
        i < t@.len(),
    ensures
        r matches Some(v) ==> is_digit(t@[i as int]) && v == digit_val(t@[i as int]),
        r is None ==> !is_digit(t@[i as int]),
{
    let c = t.get_char(i);
    let v = c as u32;
    if 48 <= v && v <= 57 {
        Some(v - 48)
    } else {
        None
    }
}

/// Parses a date field in the strict format `YYYY-MM-DD`, as
/// [`spec_parse_date`] describes.
pub fn parse_date(t: &str) -> (r: Option<Date>)
    ensures
        r == spec_parse_date(t@),
{
    if t.unicode_len() != 10 {
        return None;
    }
    let y0 = match digit_at(t, 0) {
        Some(v) => v,
        None => return None,
    };
    let y1 = match digit_at(t, 1) {
        Some(v) => v,
        None => return None,
    };
    let y2 = match digit_at(t, 2) {
        Some(v) => v,
        None => return None,
    };
    let y3 = match digit_at(t, 3) {
        Some(v) => v,
        None => return None,
    };
    if t.get_char(4) != '-' {
        return None;
    }
    let m0 = match digit_at(t, 5) {
        Some(v) => v,
        None => return None,
    };
    let m1 = match digit_at(t, 6) {
        Some(v) => v,
        None => return None,
    };
    if t.get_char(7) != '-' {
        return None;
    }
    let d0 = match digit_at(t, 8) {
        Some(v) => v,
        None => return None,
    };
    let d1 = match digit_at(t, 9) {
        Some(v) => v,
        None => return None,
    };
    let date = Date {
        year: y0 * 1000 + y1 * 100 + y2 * 10 + y3,
        month: m0 * 10 + m1,
        day: d0 * 10 + d1,
    };
    if 1 <= date.month && date.month <= 12 && 1 <= date.day && date.day <= days_in_month(
        date.year,
        date.month,
    ) {
        Some(date)
    } else {
        None
    }
}

} // verus!
