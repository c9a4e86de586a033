//! Character classes.

use vstd::prelude::*;

verus! {

/// The Unicode property `Alphabetic`, which `char::is_alphabetic` tests.
pub uninterp spec fn alphabetic(c: char) -> bool;

/// What `char::is_alphanumeric` tests: alphabetic or numeric in Unicode.
pub uninterp spec fn alphanumeric(c: char) -> bool;

/// The Unicode property `Uppercase`, which `char::is_uppercase` tests.
pub uninterp spec fn uppercase(c: char) -> bool;

/// A letter from `A` to `Z`.
pub open spec fn ascii_upper(c: char) -> bool {
    'A' <= c <= 'Z'
}

/// An ASCII letter of either case.
pub open spec fn ascii_letter(c: char) -> bool {
    ascii_upper(c) || 'a' <= c <= 'z'
}

/// A decimal digit.
pub open spec fn ascii_digit(c: char) -> bool {
    '0' <= c <= '9'
}

/// An ASCII letter or digit.
pub open spec fn ascii_alnum(c: char) -> bool {
    ascii_letter(c) || ascii_digit(c)
}

/// An ASCII letter, an ASCII digit or an underscore.
pub open spec fn ascii_word(c: char) -> bool {
    ascii_alnum(c) || c == '_'
}

/// An ASCII character.
pub open spec fn ascii(c: char) -> bool {
    (c as u32) < 128
}

/// What may stand in an identifier.
pub open spec fn word(c: char) -> bool {
    if ascii(c) {
        ascii_word(c)
    } else {
        alphanumeric(c)
    }
}

/// What may begin an identifier.
pub open spec fn word_start(c: char) -> bool {
    if ascii(c) {
        ascii_letter(c) || c == '_'
    } else {
        alphabetic(c)
    }
}

/// What may begin the name of a type in a struct literal.
pub open spec fn capital(c: char) -> bool {
    if ascii(c) {
        ascii_upper(c)
    } else {
        uppercase(c)
    }
}

/// `char::is_alphabetic`: the property of that name; of the ASCII characters
/// the letters have it.
pub assume_specification[ char::is_alphabetic ](c: char) -> (b: bool)
    ensures
        b == alphabetic(c),
        ascii(c) ==> b == ascii_letter(c),
;

/// `char::is_alphanumeric`: alphabetic or numeric; of the ASCII characters the
/// letters and the digits are.
pub assume_specification[ char::is_alphanumeric ](c: char) -> (b: bool)
    ensures
        b == alphanumeric(c),
        ascii(c) ==> b == ascii_alnum(c),
;

/// `char::is_uppercase`: the property of that name; of the ASCII characters
/// the letters `A` to `Z` have it.
pub assume_specification[ char::is_uppercase ](c: char) -> (b: bool)
    ensures
        b == uppercase(c),
        ascii(c) ==> b == ascii_upper(c),
;

/// Whether `c` may stand in an identifier.
pub fn is_word(c: char) -> (b: bool)
    ensures
        b == word(c),
{
    c.is_alphanumeric() || c == '_'
}

/// Whether `c` may begin an identifier.
pub fn is_word_start(c: char) -> (b: bool)
    ensures
        b == word_start(c),
{
    c.is_alphabetic() || c == '_'
}

/// Whether `c` is an upper-case letter.
pub fn is_capital(c: char) -> (b: bool)
    ensures
        b == capital(c),
{
    c.is_uppercase()
}

/// Whether `c` is an ASCII letter.
pub fn is_ascii_letter(c: char) -> (b: bool)
    ensures
        b == ascii_letter(c),
{
    ('A' <= c && c <= 'Z') || ('a' <= c && c <= 'z')
}

/// Whether `c` is an ASCII letter, an ASCII digit or an underscore.
pub fn is_ascii_word(c: char) -> (b: bool)
    ensures
        b == ascii_word(c),
{
    is_ascii_letter(c) || ('0' <= c && c <= '9') || c == '_'
}

/// The ASCII white space: space, tab, line feed, form feed, carriage return.
pub open spec fn ascii_white(c: char) -> bool {
    let n = c as u32;
    n == 9 || n == 10 || n == 12 || n == 13 || n == 32
}

/// Whether `c` is ASCII white space.
pub fn is_ascii_white(c: char) -> (b: bool)
    ensures
        b == ascii_white(c),
{
    let n: u32 = c as u32;
    n == 9 || n == 10 || n == 12 || n == 13 || n == 32
}

/// The value of a hexadecimal digit.
pub open spec fn hex_digit(c: char) -> Option<u8> {
    if '0' <= c <= '9' {
        Some((c as u32 - 48) as u8)
    } else if 'a' <= c <= 'f' {
        Some((c as u32 - 87) as u8)
    } else if 'A' <= c <= 'F' {
        Some((c as u32 - 55) as u8)
    } else {
        None
    }
}

/// The value of a hexadecimal digit.
pub fn hex_digit_value(c: char) -> (r: Option<u8>)
    ensures
        r == hex_digit(c),
        r matches Some(d) ==> d < 16,
{
    let n: u32 = c as u32;
    if '0' <= c && c <= '9' {
        Some((n - 48) as u8)
    } else if 'a' <= c && c <= 'f' {
        Some((n - 87) as u8)
    } else if 'A' <= c && c <= 'F' {
        Some((n - 55) as u8)
    } else {
        None
    }
}

} // verus!
