//! Character classification for the lexer.
//!
//! The scanner hands out one byte of its source at a time as a `char`, so
//! every character the tokenizer ever sees lies below U+0100. On that range
//! the Unicode classes the token rules use (whitespace, alphabetic,
//! alphanumeric) are small finite tables, written out here exactly; the
//! tests hold each table against the standard library's classification for
//! all 256 characters.

use vstd::prelude::*;

verus! {

/// Whitespace below U+0100: the ASCII whitespace characters together with
/// NEL (U+0085) and NO-BREAK SPACE (U+00A0).
pub open spec fn is_whitespace_char(c: char) -> bool {
    let u = c as u32;
    u == 0x09 || u == 0x0A || u == 0x0B || u == 0x0C || u == 0x0D || u == 0x20 || u == 0x85
        || u == 0xA0
}

/// Decimal digit: `'0'` through `'9'`. Number tokens are built from these
/// characters alone.
pub open spec fn is_digit_char(c: char) -> bool {
    0x30 <= c as u32 <= 0x39
}

/// Alphabetic below U+0100: the ASCII letters together with the Latin-1
/// letters (ordinal indicators, micro sign, and the accented letters,
/// leaving out multiplication and division signs).
pub open spec fn is_alphabetic_char(c: char) -> bool {
    let u = c as u32;
    (0x41 <= u && u <= 0x5A) || (0x61 <= u && u <= 0x7A) || u == 0xAA || u == 0xB5 || u == 0xBA
        || (0xC0 <= u && u <= 0xD6) || (0xD8 <= u && u <= 0xF6) || (0xF8 <= u && u <= 0xFF)
}

/// Numeric below U+0100: the decimal digits together with the Latin-1
/// superscripts and vulgar fractions.
pub open spec fn is_numeric_char(c: char) -> bool {
    let u = c as u32;
    is_digit_char(c) || u == 0xB2 || u == 0xB3 || u == 0xB9 || u == 0xBC || u == 0xBD || u == 0xBE
}

/// Alphanumeric: alphabetic or numeric.
pub open spec fn is_alphanumeric_char(c: char) -> bool {
    is_alphabetic_char(c) || is_numeric_char(c)
}

pub fn whitespace_char(c: char) -> (r: bool)
    ensures
        r == is_whitespace_char(c),
{
    let u = c as u32;
    u == 0x09 || u == 0x0A || u == 0x0B || u == 0x0C || u == 0x0D || u == 0x20 || u == 0x85
        || u == 0xA0
}

pub fn digit_char(c: char) -> (r: bool)
    ensures
        r == is_digit_char(c),
{
    let u = c as u32;
    0x30 <= u && u <= 0x39
}

pub fn alphabetic_char(c: char) -> (r: bool)
    ensures
        r == is_alphabetic_char(c),
{
    let u = c as u32;
    (0x41 <= u && u <= 0x5A) || (0x61 <= u && u <= 0x7A) || u == 0xAA || u == 0xB5 || u == 0xBA
        || (0xC0 <= u && u <= 0xD6) || (0xD8 <= u && u <= 0xF6) || (0xF8 <= u && u <= 0xFF)
}

pub fn numeric_char(c: char) -> (r: bool)
    ensures
        r == is_numeric_char(c),
{
    let u = c as u32;
    digit_char(c) || u == 0xB2 || u == 0xB3 || u == 0xB9 || u == 0xBC || u == 0xBD || u == 0xBE
}

pub fn alphanumeric_char(c: char) -> (r: bool)
    ensures
        r == is_alphanumeric_char(c),
{
    alphabetic_char(c) || numeric_char(c)
}

/// The numeric value of a decimal digit character.
pub open spec fn digit_val(c: char) -> int {
    c as u32 - 0x30
}

/// The value of a sequence of decimal digit characters read as a base-ten
/// numeral, most significant digit first.
pub open spec fn digits_value(s: Seq<char>) -> int
    decreases s.len(),
{
    if s.len() == 0 {
        0
    } else {
        digits_value(s.drop_last()) * 10 + digit_val(s.last())
    }
}

pub proof fn lemma_digits_value_snoc(s: Seq<char>, c: char)
    ensures
        digits_value(s.push(c)) == digits_value(s) * 10 + digit_val(c),
{
    assert(s.push(c).drop_last() =~= s);
}

pub proof fn lemma_digits_value_nonneg(s: Seq<char>)
    requires
        forall|k: int| 0 <= k < s.len() ==> is_digit_char(#[trigger] s[k]),
    ensures
        digits_value(s) >= 0,
    decreases s.len(),
{
    if s.len() > 0 {
        lemma_digits_value_nonneg(s.drop_last());
    }
}

} // verus!
