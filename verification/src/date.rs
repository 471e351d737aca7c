//! Calendar days, and the texts that denote them.

use vstd::prelude::*;
use crate::text::{
    all_digits, chars_of, decimal_value, lemma_decimal_value_bound, parse_decimal,
    pow10,
};

verus! {

/// A day of the calendar. The time of day plays no part.
#[derive(Clone, Copy, Debug, PartialEq, Eq, Structural)]
pub struct Date {
    pub year: u16,
    pub month: u8,
    pub day: u8,
}

pub open spec fn is_leap_year(year: int) -> bool {
    year % 4 == 0 && (year % 100 != 0 || year % 400 == 0)
}

pub open spec fn days_in_month(year: int, month: int) -> int {
    if month == 2 {
        if is_leap_year(year) {
            29
        } else {
            28
        }
    } else if month == 4 || month == 6 || month == 9 || month == 11 {
        30
    } else {
        31
    }
}

/// Whether the Gregorian calendar has the day `day` of month `month` in `year`.
pub open spec fn is_calendar_day(year: int, month: int, day: int) -> bool {
    0 <= year <= 9999 && 1 <= month <= 12 && 1 <= day <= days_in_month(year, month)
}

/// The day with the given numbers, where the calendar has it.
pub open spec fn date_of_numbers(year: int, month: int, day: int) -> Option<Date> {
    if is_calendar_day(year, month, day) {
        Some(Date { year: year as u16, month: month as u8, day: day as u8 })
    } else {
        None
    }
}

/// The number written at `from` in `s` with `len` digits.
pub open spec fn number_at(s: Seq<char>, from: int, len: int) -> Option<int> {
    let run = s.subrange(from, from + len);
    if all_digits(run) {
        Some(decimal_value(run) as int)
    } else {
        None
    }
}

/// The day whose three numbers stand at the given places.
pub open spec fn date_of_fields(year: Option<int>, month: Option<int>, day: Option<int>) -> Option<
    Date,
> {
    match (year, month, day) {
        (Some(y), Some(m), Some(d)) => date_of_numbers(y, m, d),
        _ => None,
    }
}

/// The day that a text denotes. Two forms are read, both from the front of
/// the text: `YYYY-MM-DD` and `YYYYMMDD`. What follows the day is the time of
/// day and is not looked at. Any other text denotes no day.
pub open spec fn date_of_text(s: Seq<char>) -> Option<Date> {
    if s.len() >= 10 && s[4] == '-' && s[7] == '-' {
        date_of_fields(number_at(s, 0, 4), number_at(s, 5, 2), number_at(s, 8, 2))
    } else if s.len() >= 8 {
        date_of_fields(number_at(s, 0, 4), number_at(s, 4, 2), number_at(s, 6, 2))
    } else {
        None
    }
}

impl Date {
    /// Whether this is a day of the calendar.
    pub open spec fn is_valid(self) -> bool {
        is_calendar_day(self.year as int, self.month as int, self.day as int)
    }

    /// The day with the given numbers, or nothing where the calendar has no
    /// such day.
    pub fn new(year: u16, month: u8, day: u8) -> (r: Option<Date>)
        ensures
            r == date_of_numbers(year as int, month as int, day as int),
    {
        if year > 9999 || month < 1 || month > 12 || day < 1 {
            return None;
        }
        let leap = year % 4 == 0 && (year % 100 != 0 || year % 400 == 0);
        let days: u8 = if month == 2 {
            if leap {
                29
            } else {
                28
            }
        } else if month == 4 || month == 6 || month == 9 || month == 11 {
            30
        } else {
            31
        };
        if day > days {
            None
        } else {
            Some(Date { year, month, day })
        }
    }
}

/// Reads `len` digits at `from`, for `len` of 2 or 4.
fn read_number(chars: &Vec<char>, from: usize, len: usize) -> (r: Option<u16>)
    requires
        len == 2 || len == 4,
        from + len <= chars.len(),
    ensures
        match r {
            Some(v) => number_at(chars@, from as int, len as int) == Some(v as int),
            None => number_at(chars@, from as int, len as int) is None,
        },
{
    let ghost run = chars@.subrange(from as int, from + len);
    proof {
        reveal_with_fuel(pow10, 5);
        if all_digits(run) {
            lemma_decimal_value_bound(run);
        }
    }
    match parse_decimal(chars, from, from + len, 9999) {
        Some(v) => Some(v as u16),
        None => None,
    }
}

/// Reads the day that a text denotes.
pub fn parse_date(text: &str) -> (r: Option<Date>)
    ensures
        r == date_of_text(text@),
{
    let chars = chars_of(text);
    let n = chars.len();
    if n < 8 {
        return None;
    }
    let dashed = n >= 10 && chars[4] == '-' && chars[7] == '-';
    let (at_month, at_day): (usize, usize) = if dashed {
        (5, 8)
    } else {
        (4, 6)
    };
    let year = read_number(&chars, 0, 4);
    let month = read_number(&chars, at_month, 2);
    let day = read_number(&chars, at_day, 2);
    match (year, month, day) {
        (Some(y), Some(m), Some(d)) => {
            if m > 255 || d > 255 {
                None
            } else {
                Date::new(y, m as u8, d as u8)
            }
        },
        _ => None,
    }
}

/// Every text that denotes a day denotes a day of the calendar.
pub proof fn lemma_date_of_text_is_valid(s: Seq<char>)
    ensures
        date_of_text(s) matches Some(d) ==> d.is_valid(),
{
}

} // verus!
