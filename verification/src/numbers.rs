//! What the digits of a number stand for.

use vstd::prelude::*;

use crate::numeral::{self, IntError};

verus! {

/// The value of a character as a digit: decimal digits, and the letters that
/// follow them in hexadecimal, small or capital.
pub open spec fn digit(c: char, radix: int) -> Option<int> {
    let d = if '0' <= c <= '9' {
        c as int - '0' as int
    } else if 'a' <= c <= 'f' {
        10 + (c as int - 'a' as int)
    } else if 'A' <= c <= 'F' {
        10 + (c as int - 'A' as int)
    } else {
        16
    };
    if d < radix {
        Some(d)
    } else {
        None
    }
}

/// Every character is a digit.
pub open spec fn all_digits(s: Seq<char>, radix: int) -> bool {
    forall|i: int| 0 <= i < s.len() ==> digit(#[trigger] s[i], radix) is Some
}

/// The number that digits write: each place counts the radix times the next.
pub open spec fn number(s: Seq<char>, radix: int) -> int
    decreases s.len(),
{
    if s.len() == 0 {
        0
    } else {
        number(s.drop_last(), radix) * radix + digit(s.last(), radix)->0
    }
}

proof fn lemma_digit(c: char, radix: int)
    requires
        radix == 10 || radix == 16,
        digit(c, radix) is Some,
    ensures
        numeral::digit_value(c, radix) == digit(c, radix),
        0 <= digit(c, radix)->0 < radix,
        c != '+',
        c != '-',
{
    assert(c <= 0x10_ffff);
    assert(c as u32 == c as int);
}

proof fn lemma_grows(s: Seq<char>, radix: int, i: int)
    requires
        radix == 10 || radix == 16,
        all_digits(s, radix),
        0 <= i <= s.len(),
    ensures
        0 <= number(s.take(i), radix) <= number(s, radix),
    decreases s.len(),
{
    if s.len() > 0 {
        let front = s.drop_last();
        assert forall|k: int| 0 <= k < front.len() implies digit(#[trigger] front[k], radix)
            is Some by {
            assert(front[k] == s[k]);
        }
        assert(digit(s[s.len() - 1], radix) is Some);
        lemma_digit(s.last(), radix);
        let n = number(front, radix);
        if i < s.len() {
            lemma_grows(front, radix, i);
            assert(front.take(i) =~= s.take(i));
        } else {
            lemma_grows(front, radix, 0);
            assert(s.take(i) =~= s);
            assert(front.take(0) =~= Seq::empty());
        }
        assert(n * radix >= n) by (nonlinear_arith)
            requires
                n >= 0,
                radix >= 1,
        ;
    } else {
        assert(s.take(i) =~= s);
    }
}

/// The digits of a text behind a sign, if it has one.
proof fn lemma_digits(
    t: Seq<char>,
    from: int,
    radix: int,
    neg: bool,
    lo: int,
    hi: int,
    i: int,
)
    requires
        radix == 10 || radix == 16,
        lo <= 0 <= hi,
        0 <= from <= i <= t.len(),
        all_digits(t.skip(from), radix),
        neg ==> -number(t.subrange(from, i), radix) >= lo,
        !neg ==> number(t.subrange(from, i), radix) <= hi,
    ensures
        ({
            let n = number(t.skip(from), radix);
            let so_far = number(t.subrange(from, i), radix);
            let r = numeral::digits_value(
                t,
                radix,
                neg,
                lo,
                hi,
                i,
                if neg {
                    -so_far
                } else {
                    so_far
                },
            );
            &&& !neg && n <= hi ==> r == Ok::<int, IntError>(n)
            &&& !neg && n > hi ==> r == Err::<int, IntError>(IntError::PosOverflow)
            &&& neg && -n >= lo ==> r == Ok::<int, IntError>(-n)
            &&& neg && -n < lo ==> r == Err::<int, IntError>(IntError::NegOverflow)
        }),
    decreases t.len() - i,
{
    let s = t.skip(from);
    let so_far = number(t.subrange(from, i), radix);
    if i == t.len() {
        assert(t.subrange(from, i) =~= s);
        lemma_grows(s, radix, 0);
        assert(s.take(0) =~= Seq::empty());
    } else {
        assert(s[i - from] == t[i]);
        lemma_digit(t[i], radix);
        let d = digit(t[i], radix)->0;
        let more = t.subrange(from, i + 1);
        assert(more.drop_last() =~= t.subrange(from, i));
        assert(more.last() == t[i]);
        assert(number(more, radix) == so_far * radix + d);
        assert(s.take(i + 1 - from) =~= more);
        lemma_grows(s, radix, i + 1 - from);
        assert((-so_far) * radix == -(so_far * radix)) by (nonlinear_arith);
        if neg && -number(more, radix) >= lo || !neg && number(more, radix) <= hi {
            lemma_digits(t, from, radix, neg, lo, hi, i + 1);
        }
    }
}

/// A number is read with the value of its digits and its sign, if the value is
/// in range; one beyond the range is told from one below it.
pub proof fn law_number_has_its_value(s: Seq<char>, radix: int, lo: int, hi: int)
    requires
        radix == 10 || radix == 16,
        lo < 0 <= hi,
        s.len() > 0,
        all_digits(s, radix),
    ensures
        ({
            let n = number(s, radix);
            let above = if n <= hi {
                Ok::<int, IntError>(n)
            } else {
                Err(IntError::PosOverflow)
            };
            let below = if -n >= lo {
                Ok::<int, IntError>(-n)
            } else {
                Err(IntError::NegOverflow)
            };
            &&& numeral::int_value(s, radix, lo, hi) == above
            &&& numeral::int_value(seq!['+'] + s, radix, lo, hi) == above
            &&& numeral::int_value(seq!['-'] + s, radix, lo, hi) == below
        }),
{
    assert(digit(s[0], radix) is Some);
    lemma_digit(s[0], radix);
    assert(s.skip(0) =~= s);
    assert(s.subrange(0, 0) =~= Seq::empty());
    lemma_digits(s, 0, radix, false, lo, hi, 0);
    let plus = seq!['+'] + s;
    assert(plus[0] == '+');
    assert(plus.skip(1) =~= s);
    assert(plus.subrange(1, 1) =~= Seq::empty());
    lemma_digits(plus, 1, radix, false, lo, hi, 1);
    let minus = seq!['-'] + s;
    assert(minus[0] == '-');
    assert(minus.skip(1) =~= s);
    assert(minus.subrange(1, 1) =~= Seq::empty());
    lemma_digits(minus, 1, radix, true, lo, hi, 1);
}

/// Bytes are shown by two hexadecimal digits each, in order.
pub proof fn law_bytes_are_shown_in_hexadecimal(bytes: Seq<u8>, i: int)
    requires
        0 <= i < bytes.len(),
    ensures
        ({
            let shown = numeral::bytes_hex(bytes);
            &&& shown.len() == 2 * bytes.len()
            &&& digit(shown[2 * i], 16) is Some
            &&& digit(shown[2 * i + 1], 16) is Some
            &&& digit(shown[2 * i], 16)->0 * 16 + digit(shown[2 * i + 1], 16)->0 == bytes[i]
        }),
    decreases bytes.len(),
{
    let front = bytes.drop_last();
    lemma_shown_len(bytes);
    lemma_shown_len(front);
    if i < front.len() {
        law_bytes_are_shown_in_hexadecimal(front, i);
        assert(front[i] == bytes[i]);
    } else {
        lemma_nibble(bytes[i] as int / 16);
        lemma_nibble(bytes[i] as int % 16);
        let last = numeral::byte_hex(bytes.last());
        assert(numeral::bytes_hex(bytes)[2 * i] == last[0]);
        assert(numeral::bytes_hex(bytes)[2 * i + 1] == last[1]);
    }
}

proof fn lemma_shown_len(bytes: Seq<u8>)
    ensures
        numeral::bytes_hex(bytes).len() == 2 * bytes.len(),
    decreases bytes.len(),
{
    if bytes.len() > 0 {
        lemma_shown_len(bytes.drop_last());
    }
}

proof fn lemma_nibble(d: int)
    requires
        0 <= d < 16,
    ensures
        digit(numeral::digit_char(d), 16) == Some(d),
{
}

} // verus!
