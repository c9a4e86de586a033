//! Integers as text: parsing with the rules of Rust's integer types, decimal
//! and hexadecimal rendering.

use vstd::prelude::*;

use crate::text;

verus! {

/// Why a text is not an integer of the wanted range.
#[derive(Debug, Clone, Copy, PartialEq, Eq, Structural)]
pub enum IntError {
    /// The text is empty.
    Empty,
    /// A character is no digit, or there is a sign and nothing else.
    InvalidDigit,
    /// The value is above the range.
    PosOverflow,
    /// The value is below the range.
    NegOverflow,
}

/// What a parse error says.
pub open spec fn int_error_text(e: IntError) -> Seq<char> {
    match e {
        IntError::Empty => "cannot parse integer from empty string"@,
        IntError::InvalidDigit => "invalid digit found in string"@,
        IntError::PosOverflow => "number too large to fit in target type"@,
        IntError::NegOverflow => "number too small to fit in target type"@,
    }
}

impl IntError {
    /// The message of the error.
    pub fn message(&self) -> (r: &'static str)
        ensures
            r@ == int_error_text(*self),
    {
        match self {
            IntError::Empty => "cannot parse integer from empty string",
            IntError::InvalidDigit => "invalid digit found in string",
            IntError::PosOverflow => "number too large to fit in target type",
            IntError::NegOverflow => "number too small to fit in target type",
        }
    }
}

/// The value of `c` as a digit of base `radix`.
pub open spec fn digit_value(c: char, radix: int) -> Option<int> {
    let n = c as u32 as int;
    let d = if 48 <= n <= 57 {
        n - 48
    } else if 97 <= n <= 122 {
        n - 87
    } else if 65 <= n <= 90 {
        n - 55
    } else {
        radix
    };
    if d < radix {
        Some(d)
    } else {
        None
    }
}

/// The value of the digits `s[i..]` after `acc`, each digit counted negatively
/// if `neg`, or the first thing wrong from the left.
pub open spec fn digits_value(
    s: Seq<char>,
    radix: int,
    neg: bool,
    lo: int,
    hi: int,
    i: int,
    acc: int,
) -> Result<int, IntError>
    decreases s.len() - i,
{
    if i >= s.len() {
        Ok(acc)
    } else {
        match digit_value(s[i], radix) {
            None => Err(IntError::InvalidDigit),
            Some(d) => {
                let next = if neg {
                    acc * radix - d
                } else {
                    acc * radix + d
                };
                if next > hi {
                    Err(IntError::PosOverflow)
                } else if next < lo {
                    Err(IntError::NegOverflow)
                } else {
                    digits_value(s, radix, neg, lo, hi, i + 1, next)
                }
            },
        }
    }
}

/// The integer in `lo..=hi` that `s` writes in base `radix`: an optional sign
/// (`-` only where the range holds negative numbers) and at least one digit.
pub open spec fn int_value(s: Seq<char>, radix: int, lo: int, hi: int) -> Result<int, IntError> {
    if s.len() == 0 {
        Err(IntError::Empty)
    } else if s.len() == 1 && (s[0] == '+' || s[0] == '-') {
        Err(IntError::InvalidDigit)
    } else if s[0] == '+' {
        digits_value(s, radix, false, lo, hi, 1, 0)
    } else if s[0] == '-' && lo < 0 {
        digits_value(s, radix, true, lo, hi, 1, 0)
    } else {
        digits_value(s, radix, false, lo, hi, 0, 0)
    }
}

/// The `i64` that `s` writes in decimal.
pub open spec fn i64_value(s: Seq<char>) -> Result<int, IntError> {
    int_value(s, 10, i64::MIN as int, i64::MAX as int)
}

/// The `usize` that `s` writes in decimal.
pub open spec fn usize_value(s: Seq<char>) -> Result<int, IntError> {
    int_value(s, 10, 0, usize::MAX as int)
}

fn digit_of(c: char, radix: u32) -> (r: Option<u32>)
    requires
        2 <= radix <= 36,
    ensures
        match r {
            Some(d) => digit_value(c, radix as int) == Some(d as int) && d < radix,
            None => digit_value(c, radix as int) is None,
        },
{
    let n: u32 = c as u32;
    let d: u32 = if 48 <= n && n <= 57 {
        n - 48
    } else if 97 <= n && n <= 122 {
        n - 87
    } else if 65 <= n && n <= 90 {
        n - 55
    } else {
        radix
    };
    if d < radix {
        Some(d)
    } else {
        None
    }
}

/// Parse an integer of base `radix` in the range `lo..=hi`.
pub fn parse_int(s: &str, radix: u32, lo: i128, hi: i128) -> (r: Result<i128, IntError>)
    requires
        2 <= radix <= 36,
        -0x1_0000_0000_0000_0000 <= lo <= 0 <= hi <= 0x1_0000_0000_0000_0000,
    ensures
        match r {
            Ok(n) => int_value(s@, radix as int, lo as int, hi as int) == Ok::<int, IntError>(
                n as int,
            ) && lo <= n <= hi,
            Err(e) => int_value(s@, radix as int, lo as int, hi as int) == Err::<int, IntError>(e),
        },
{
    let v = text::chars_of(s);
    if v.len() == 0 {
        return Err(IntError::Empty);
    }
    if v.len() == 1 && (v[0] == '+' || v[0] == '-') {
        return Err(IntError::InvalidDigit);
    }
    let neg: bool = v[0] == '-' && lo < 0;
    let mut i: usize = if v[0] == '+' || neg {
        1
    } else {
        0
    };
    let mut acc: i128 = 0;
    while i < v.len()
        invariant
            i <= v.len(),
            v@ == s@,
            2 <= radix <= 36,
            -0x1_0000_0000_0000_0000 <= lo <= acc <= hi <= 0x1_0000_0000_0000_0000,
            int_value(s@, radix as int, lo as int, hi as int) == digits_value(
                s@,
                radix as int,
                neg,
                lo as int,
                hi as int,
                i as int,
                acc as int,
            ),
        decreases v.len() - i,
    {
        match digit_of(v[i], radix) {
            None => {
                return Err(IntError::InvalidDigit);
            },
            Some(d) => {
                assert(-0x24_0000_0000_0000_0000 <= acc * radix <= 0x24_0000_0000_0000_0000)
                    by (nonlinear_arith)
                    requires
                        -0x1_0000_0000_0000_0000 <= acc <= 0x1_0000_0000_0000_0000,
                        2 <= radix <= 36,
                ;
                let next: i128 = if neg {
                    acc * (radix as i128) - (d as i128)
                } else {
                    acc * (radix as i128) + (d as i128)
                };
                if next > hi {
                    return Err(IntError::PosOverflow);
                }
                if next < lo {
                    return Err(IntError::NegOverflow);
                }
                acc = next;
                i += 1;
            },
        }
    }
    Ok(acc)
}

/// Parse a decimal `i64`.
pub fn parse_i64(s: &str) -> (r: Result<i64, IntError>)
    ensures
        match r {
            Ok(n) => i64_value(s@) == Ok::<int, IntError>(n as int),
            Err(e) => i64_value(s@) == Err::<int, IntError>(e),
        },
{
    match parse_int(s, 10, i64::MIN as i128, i64::MAX as i128) {
        Ok(n) => Ok(n as i64),
        Err(e) => Err(e),
    }
}

/// Parse a hexadecimal `i64`.
pub fn parse_hex_i64(s: &str) -> (r: Result<i64, IntError>)
    ensures
        match r {
            Ok(n) => int_value(s@, 16, i64::MIN as int, i64::MAX as int) == Ok::<int, IntError>(
                n as int,
            ),
            Err(e) => int_value(s@, 16, i64::MIN as int, i64::MAX as int) == Err::<int, IntError>(
                e,
            ),
        },
{
    match parse_int(s, 16, i64::MIN as i128, i64::MAX as i128) {
        Ok(n) => Ok(n as i64),
        Err(e) => Err(e),
    }
}

/// Parse a decimal `i32`.
pub fn parse_i32(s: &str) -> (r: Result<i32, IntError>)
    ensures
        match r {
            Ok(n) => int_value(s@, 10, i32::MIN as int, i32::MAX as int) == Ok::<int, IntError>(
                n as int,
            ),
            Err(e) => int_value(s@, 10, i32::MIN as int, i32::MAX as int) == Err::<int, IntError>(
                e,
            ),
        },
{
    match parse_int(s, 10, i32::MIN as i128, i32::MAX as i128) {
        Ok(n) => Ok(n as i32),
        Err(e) => Err(e),
    }
}

/// Parse a decimal `usize`.
pub fn parse_usize(s: &str) -> (r: Result<usize, IntError>)
    ensures
        match r {
            Ok(n) => usize_value(s@) == Ok::<int, IntError>(n as int),
            Err(e) => usize_value(s@) == Err::<int, IntError>(e),
        },
{
    match parse_int(s, 10, 0, usize::MAX as i128) {
        Ok(n) => Ok(n as usize),
        Err(e) => Err(e),
    }
}

/// The character of a digit below sixteen.
pub open spec fn digit_char(d: int) -> char {
    if 0 <= d < 10 {
        (48 + d) as char
    } else {
        (87 + d) as char
    }
}

fn char_of_digit(d: u8) -> (c: char)
    requires
        d < 16,
    ensures
        c == digit_char(d as int),
{
    if d < 10 {
        (48 + d) as char
    } else {
        (87 + d) as char
    }
}

/// The decimal digits of a natural number.
pub open spec fn nat_text(n: nat) -> Seq<char>
    decreases n,
{
    if n < 10 {
        seq![digit_char(n as int)]
    } else {
        nat_text(n / 10).push(digit_char((n % 10) as int))
    }
}

/// The decimal rendering of an integer.
pub open spec fn int_text(n: int) -> Seq<char> {
    if n < 0 {
        seq!['-'] + nat_text((-n) as nat)
    } else {
        nat_text(n as nat)
    }
}

/// Render a natural number in decimal.
pub fn u64_to_string(n: u64) -> (r: String)
    ensures
        r@ == nat_text(n as nat),
    decreases n,
{
    if n < 10 {
        let mut r = String::new();
        r.push(char_of_digit(n as u8));
        assert(r@ =~= seq![digit_char(n as int)]);
        r
    } else {
        let mut r = u64_to_string(n / 10);
        r.push(char_of_digit((n % 10) as u8));
        r
    }
}

/// Render an integer in decimal.
pub fn i64_to_string(n: i64) -> (r: String)
    ensures
        r@ == int_text(n as int),
{
    if n < 0 {
        let m: u64 = (-(n as i128)) as u64;
        let mut r = String::new();
        r.push('-');
        let d = u64_to_string(m);
        r.append(d.as_str());
        assert(r@ =~= seq!['-'] + nat_text(m as nat));
        r
    } else {
        u64_to_string(n as u64)
    }
}

/// The two hexadecimal digits of a byte.
pub open spec fn byte_hex(b: u8) -> Seq<char> {
    seq![digit_char(b as int / 16), digit_char(b as int % 16)]
}

/// The hexadecimal digits of the bytes, two for each.
pub open spec fn bytes_hex(s: Seq<u8>) -> Seq<char>
    decreases s.len(),
{
    if s.len() == 0 {
        Seq::empty()
    } else {
        bytes_hex(s.drop_last()) + byte_hex(s.last())
    }
}

/// Render bytes as hexadecimal digits.
pub fn hex_string(v: &Vec<u8>) -> (r: String)
    ensures
        r@ == bytes_hex(v@),
{
    let mut r = String::new();
    let mut i: usize = 0;
    while i < v.len()
        invariant
            i <= v.len(),
            r@ == bytes_hex(v@.take(i as int)),
        decreases v.len() - i,
    {
        r.push(char_of_digit(v[i] / 16));
        r.push(char_of_digit(v[i] % 16));
        assert(v@.take(i + 1).drop_last() =~= v@.take(i as int));
        assert(r@ =~= bytes_hex(v@.take(i as int)) + byte_hex(v@[i as int]));
        i += 1;
    }
    assert(v@.take(v@.len() as int) =~= v@);
    r
}

proof fn lemma_digit_char(d: int)
    requires
        0 <= d < 10,
    ensures
        digit_value(digit_char(d), 10) == Some(d),
        digit_char(d) != '-',
        digit_char(d) != '+',
{
}

/// The digits of `n` are never a sign, and there is at least one.
pub proof fn lemma_nat_text_digits(n: nat)
    ensures
        nat_text(n).len() > 0,
        forall|i: int|
            0 <= i < nat_text(n).len() ==> '0' <= #[trigger] nat_text(n)[i] <= '9',
    decreases n,
{
    if n >= 10 {
        lemma_nat_text_digits(n / 10);
    }
}

/// Reading the digits of `n` behind a prefix gives `n`, or `-n` where the
/// digits count negatively.
proof fn lemma_digits_of_nat(pre: Seq<char>, rest: Seq<char>, n: nat, neg: bool, lo: int, hi: int)
    requires
        lo <= 0 <= hi,
        neg ==> lo <= -n,
        !neg ==> n <= hi,
    ensures
        digits_value(pre + nat_text(n) + rest, 10, neg, lo, hi, pre.len() as int, 0)
            == digits_value(
            pre + nat_text(n) + rest,
            10,
            neg,
            lo,
            hi,
            (pre.len() + nat_text(n).len()) as int,
            if neg {
                -n
            } else {
                n as int
            },
        ),
    decreases n,
{
    let s = pre + nat_text(n) + rest;
    if n < 10 {
        lemma_digit_char(n as int);
        assert(s[pre.len() as int] == digit_char(n as int));
        reveal_with_fuel(digits_value, 2);
    } else {
        let q = n / 10;
        let d = (n % 10) as int;
        let r2 = seq![digit_char(d)] + rest;
        assert(pre + nat_text(q) + r2 =~= s);
        lemma_digits_of_nat(pre, r2, q, neg, lo, hi);
        lemma_digit_char(d);
        assert(s[(pre.len() + nat_text(q).len()) as int] == digit_char(d));
        assert(q * 10 + d == n);
        assert(-q * 10 - d == -n);
    }
}

/// Reading back the decimal rendering of an integer gives that integer, in any
/// range that holds it.
pub proof fn law_decimal_round_trip(n: int, lo: int, hi: int)
    requires
        lo <= 0 <= hi,
        lo <= n <= hi,
    ensures
        int_value(int_text(n), 10, lo, hi) == Ok::<int, IntError>(n),
{
    let s = int_text(n);
    if n < 0 {
        let m = (-n) as nat;
        lemma_nat_text_digits(m);
        lemma_digits_of_nat(seq!['-'], Seq::empty(), m, true, lo, hi);
        assert(seq!['-'] + nat_text(m) + Seq::<char>::empty() =~= s);
    } else {
        lemma_nat_text_digits(n as nat);
        lemma_digits_of_nat(Seq::empty(), Seq::empty(), n as nat, false, lo, hi);
        assert(Seq::<char>::empty() + nat_text(n as nat) + Seq::<char>::empty() =~= s);
    }
}

/// A decimal rendering neither begins nor ends with white space.
pub proof fn lemma_int_text_ends(n: int)
    ensures
        int_text(n).len() > 0,
        !text::white(int_text(n)[0]),
        !text::white(int_text(n).last()),
{
    if n < 0 {
        lemma_nat_text_digits((-n) as nat);
    } else {
        lemma_nat_text_digits(n as nat);
    }
}

/// Digits that are read end within the range, and in any wider range they are
/// read the same.
proof fn lemma_digits_range(
    s: Seq<char>,
    neg: bool,
    lo: int,
    hi: int,
    wide_lo: int,
    wide_hi: int,
    i: int,
    acc: int,
)
    requires
        wide_lo <= lo <= acc <= hi <= wide_hi,
        digits_value(s, 10, neg, lo, hi, i, acc) is Ok,
    ensures
        lo <= digits_value(s, 10, neg, lo, hi, i, acc)->Ok_0 <= hi,
        digits_value(s, 10, neg, wide_lo, wide_hi, i, acc) == digits_value(
            s,
            10,
            neg,
            lo,
            hi,
            i,
            acc,
        ),
    decreases s.len() - i,
{
    if i < s.len() {
        let d = digit_value(s[i], 10)->0;
        let next = if neg {
            acc * 10 - d
        } else {
            acc * 10 + d
        };
        lemma_digits_range(s, neg, lo, hi, wide_lo, wide_hi, i + 1, next);
    }
}

/// The decimal rendering of an integer beyond a range is not read in it.
pub proof fn law_decimal_beyond_range(n: int, lo: int, hi: int)
    requires
        lo < 0 <= hi,
        !(lo <= n <= hi),
    ensures
        int_value(int_text(n), 10, lo, hi) is Err,
{
    let s = int_text(n);
    if int_value(s, 10, lo, hi) is Ok {
        let wide_lo = if n < lo {
            n
        } else {
            lo
        };
        let wide_hi = if n > hi {
            n
        } else {
            hi
        };
        law_decimal_round_trip(n, wide_lo, wide_hi);
        let neg = s[0] == '-';
        let start: int = if s[0] == '-' || s[0] == '+' {
            1
        } else {
            0
        };
        lemma_digits_range(s, neg, lo, hi, wide_lo, wide_hi, start, 0);
    }
}

proof fn lemma_digit(c: char)
    requires
        digit_value(c, 10) is Some,
    ensures
        '0' <= c <= '9',
{
    assert(c <= 0x10_ffff);
    assert(c as u32 == c as int);
}

proof fn lemma_digits_chars(s: Seq<char>, neg: bool, lo: int, hi: int, i: int, acc: int)
    requires
        0 <= i,
        digits_value(s, 10, neg, lo, hi, i, acc) is Ok,
    ensures
        forall|k: int| i <= k < s.len() ==> '0' <= #[trigger] s[k] <= '9',
    decreases s.len() - i,
{
    if i < s.len() {
        let d = digit_value(s[i], 10)->0;
        let next = if neg {
            acc * 10 - d
        } else {
            acc * 10 + d
        };
        lemma_digits_chars(s, neg, lo, hi, i + 1, next);
        lemma_digit(s[i]);
    }
}

/// A text that is read as an integer is made of digits, but for a sign before
/// them.
pub proof fn lemma_integer_chars(s: Seq<char>, lo: int, hi: int)
    requires
        lo < 0,
        int_value(s, 10, lo, hi) is Ok,
    ensures
        s.len() > 0,
        '0' <= s[0] <= '9' || s[0] == '+' || s[0] == '-',
        forall|k: int| 1 <= k < s.len() ==> '0' <= #[trigger] s[k] <= '9',
        '0' <= s.last() <= '9',
{
    let neg = s[0] == '-';
    let start: int = if s[0] == '-' || s[0] == '+' {
        1
    } else {
        0
    };
    lemma_digits_chars(s, neg, lo, hi, start, 0);
    assert(s.last() == s[s.len() - 1]);
}

} // verus!
