//! Amounts of money in whole minor units, and the texts that denote them.

use vstd::prelude::*;
use crate::text::{chars_of, decimal_within, parse_decimal};

verus! {

/// The amount that a text denotes: an optional sign, `+` or `-`, and then at
/// least one digit, nothing else; the number must fit in 64 bits with sign.
/// Any other text denotes no amount.
pub open spec fn amount_of_text(s: Seq<char>) -> Option<i64> {
    if s.len() > 0 && s[0] == '-' {
        match decimal_within(s.subrange(1, s.len() as int), 0x8000_0000_0000_0000) {
            Some(v) => Some((-v) as i64),
            None => None,
        }
    } else if s.len() > 0 && s[0] == '+' {
        match decimal_within(s.subrange(1, s.len() as int), 0x7fff_ffff_ffff_ffff) {
            Some(v) => Some(v as i64),
            None => None,
        }
    } else {
        match decimal_within(s, 0x7fff_ffff_ffff_ffff) {
            Some(v) => Some(v as i64),
            None => None,
        }
    }
}

/// Reads the amount that a text denotes.
pub fn parse_amount(text: &str) -> (r: Option<i64>)
    ensures
        r == amount_of_text(text@),
{
    let chars = chars_of(text);
    let n = chars.len();
    if n > 0 && chars[0] == '-' {
        match parse_decimal(&chars, 1, n, 0x8000_0000_0000_0000) {
            Some(v) => {
                let wide: i128 = -(v as i128);
                Some(wide as i64)
            },
            None => None,
        }
    } else if n > 0 && chars[0] == '+' {
        match parse_decimal(&chars, 1, n, 0x7fff_ffff_ffff_ffff) {
            Some(v) => Some(v as i64),
            None => None,
        }
    } else {
        proof {
            assert(chars@.subrange(0, n as int) == chars@);
        }
        match parse_decimal(&chars, 0, n, 0x7fff_ffff_ffff_ffff) {
            Some(v) => Some(v as i64),
            None => None,
        }
    }
}

} // verus!
