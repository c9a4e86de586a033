//! What the literals of slices stand for.

use vstd::prelude::*;

use crate::chars;
use crate::numbers;
use crate::syntax;
use crate::text;
use crate::value::{SliceEncoding, Val};

verus! {

/// A character as it is written in a text literal.
pub open spec fn escaped_char(c: char) -> Seq<char> {
    if c == '\\' {
        seq!['\\', '\\']
    } else if c == '"' {
        seq!['\\', '"']
    } else if c == '\n' {
        seq!['\\', 'n']
    } else if c == '\t' {
        seq!['\\', 't']
    } else {
        seq![c]
    }
}

/// A text as it is written in a text literal.
pub open spec fn escaped(s: Seq<char>) -> Seq<char>
    decreases s.len(),
{
    if s.len() == 0 {
        Seq::empty()
    } else {
        escaped_char(s[0]) + escaped(s.skip(1))
    }
}

/// What a literal means from some place on depends on what follows only.
proof fn lemma_behind(front: Seq<char>, s: Seq<char>, i: int)
    requires
        0 <= i,
    ensures
        syntax::unescaped(front + s, front.len() + i) == syntax::unescaped(s, i),
        syntax::quotes_escaped(front + s, front.len() + i) == syntax::quotes_escaped(s, i),
    decreases s.len() - i,
{
    let t = front + s;
    let n = front.len() as int;
    if i < s.len() {
        assert(t[n + i] == s[i]);
        lemma_behind(front, s, i + 1);
        if i + 1 < s.len() {
            assert(t[n + i + 1] == s[i + 1]);
            lemma_behind(front, s, i + 2);
        }
    }
}

/// A character as it is written means that character, whatever follows.
proof fn lemma_char(c: char, rest: Seq<char>)
    ensures
        syntax::unescaped(escaped_char(c) + rest, 0) == seq![c] + syntax::unescaped(rest, 0),
        syntax::quotes_escaped(escaped_char(c) + rest, 0) == syntax::quotes_escaped(rest, 0),
{
    let front = escaped_char(c);
    let t = front + rest;
    lemma_behind(front, rest, 0);
    assert(t[0] == front[0]);
    if front.len() == 2 {
        assert(t[1] == front[1]);
    }
}

proof fn lemma_escaped(s: Seq<char>)
    ensures
        syntax::unescaped(escaped(s), 0) == s,
        syntax::quotes_escaped(escaped(s), 0),
    decreases s.len(),
{
    if s.len() > 0 {
        let rest = s.skip(1);
        lemma_escaped(rest);
        lemma_char(s[0], escaped(rest));
        assert(seq![s[0]] + rest =~= s);
    } else {
        assert(s =~= Seq::empty());
    }
}

/// The body of a text literal stands between its quotes.
proof fn lemma_quoted(body: Seq<char>)
    ensures
        syntax::slice_shape("\""@ + body + "\""@) == if syntax::quotes_escaped(body, 0) {
            Some(
                Val::SliceLit {
                    encoding: SliceEncoding::Text,
                    bytes: vstd::utf8::encode_utf8(syntax::unescaped(body, 0)),
                },
            )
        } else {
            None
        },
{
    reveal_strlit("0x\"");
    reveal_strlit("0X\"");
    reveal_strlit("\"");
    let source = "\""@ + body + "\""@;
    assert(source[0] == '"');
    assert(source.last() == '"');
    text::lemma_trimmed_already(source);
    if "0x\""@.is_prefix_of(source) {
        assert(source.subrange(0, 3)[0] == '0');
    }
    if "0X\""@.is_prefix_of(source) {
        assert(source.subrange(0, 3)[0] == '0');
    }
    assert(source =~= "\""@ + (body + "\""@));
    text::lemma_after("\""@, body + "\""@);
    text::lemma_before(body, "\""@);
}

/// A text literal is the slice of the UTF-8 bytes of the text that it was
/// written of, whatever characters that holds.
pub proof fn law_text_literal_is_read_back(s: Seq<char>)
    ensures
        syntax::slice_shape("\""@ + escaped(s) + "\""@) == Some(
            Val::SliceLit { encoding: SliceEncoding::Text, bytes: vstd::utf8::encode_utf8(s) },
        ),
{
    lemma_escaped(s);
    lemma_quoted(escaped(s));
}

/// A backslash before any other character stands for itself.
pub proof fn law_other_backslash_is_kept(c: char, s: Seq<char>)
    requires
        c != '\\' && c != '"' && c != 'n' && c != 't',
    ensures
        syntax::slice_shape("\""@ + (seq!['\\', c] + escaped(s)) + "\""@) == Some(
            Val::SliceLit {
                encoding: SliceEncoding::Text,
                bytes: vstd::utf8::encode_utf8(seq!['\\', c] + s),
            },
        ),
{
    let body = seq!['\\', c] + escaped(s);
    assert(body[0] == '\\');
    assert(body[1] == c);
    lemma_escaped(s);
    lemma_behind(seq!['\\', c], escaped(s), 0);
    lemma_quoted(body);
}

/// Two literals with something between them are not one.
pub proof fn law_two_literals_are_not_one(a: Seq<char>, b: Seq<char>)
    ensures
        syntax::slice_shape("\""@ + (escaped(a) + seq!['"'] + b) + "\""@) is None,
{
    let body = escaped(a) + seq!['"'] + b;
    lemma_bare_quote(a, b);
    lemma_quoted(body);
}

proof fn lemma_bare_quote(a: Seq<char>, b: Seq<char>)
    ensures
        !syntax::quotes_escaped(escaped(a) + seq!['"'] + b, 0),
    decreases a.len(),
{
    let body = escaped(a) + seq!['"'] + b;
    if a.len() == 0 {
        assert(body[0] == '"');
    } else {
        let front = escaped_char(a[0]);
        let rest = escaped(a.skip(1)) + seq!['"'] + b;
        assert(body =~= front + rest);
        lemma_bare_quote(a.skip(1), b);
        lemma_char(a[0], rest);
    }
}

/// A literal of hexadecimal digits as it is written.
pub open spec fn hex_text(digits: Seq<char>, capital: bool) -> Seq<char> {
    if capital {
        "0X\""@ + digits + "\""@
    } else {
        "0x\""@ + digits + "\""@
    }
}

proof fn lemma_hex(body: Seq<char>, capital: bool)
    requires
        syntax::hex_or_white(body),
    ensures
        syntax::slice_shape(hex_text(body, capital)) == Some(
            Val::SliceLit {
                encoding: SliceEncoding::Hex,
                bytes: syntax::digit_bytes(syntax::padded(syntax::without_white(body))),
            },
        ),
{
    reveal_strlit("0x\"");
    reveal_strlit("0X\"");
    reveal_strlit("\"");
    let source = hex_text(body, capital);
    let rest = body + "\""@;
    assert(source[0] == '0');
    assert(source.last() == '"');
    text::lemma_trimmed_already(source);
    text::lemma_before(body, "\""@);
    if capital {
        assert(source =~= "0X\""@ + rest);
        text::lemma_after("0X\""@, rest);
        if "0x\""@.is_prefix_of(source) {
            assert(source.subrange(0, 3)[1] == 'X');
        }
    } else {
        assert(source =~= "0x\""@ + rest);
        text::lemma_after("0x\""@, rest);
    }
}

proof fn lemma_digit(c: char)
    requires
        numbers::digit(c, 16) is Some,
    ensures
        chars::hex_digit(c) is Some,
        chars::hex_digit(c)->0 as int == numbers::digit(c, 16)->0,
        0 <= numbers::digit(c, 16)->0 < 16,
        !chars::ascii_white(c),
{
    assert(c <= 0x10_ffff);
    assert(c as u32 == c as int);
}

proof fn lemma_no_white(s: Seq<char>)
    requires
        numbers::all_digits(s, 16),
    ensures
        syntax::without_white(s) == s,
        syntax::hex_or_white(s),
    decreases s.len(),
{
    assert forall|i: int| 0 <= i < s.len() implies chars::hex_digit(#[trigger] s[i]) is Some by {
        lemma_digit(s[i]);
    }
    if s.len() > 0 {
        assert(numbers::digit(s[s.len() - 1], 16) is Some);
        lemma_digit(s.last());
        let front = s.drop_last();
        assert forall|i: int| 0 <= i < front.len() implies numbers::digit(
            #[trigger] front[i],
            16,
        ) is Some by {
            assert(front[i] == s[i]);
        }
        lemma_no_white(front);
        assert(front.push(s.last()) =~= s);
    }
}

/// A literal of hexadecimal digits, small or capital, is the slice of the bytes
/// that each two of them write; if one is left over, a zero follows it.
pub proof fn law_hex_literal_has_its_bytes(digits: Seq<char>, capital: bool)
    requires
        numbers::all_digits(digits, 16),
    ensures
        syntax::slice_shape(hex_text(digits, capital)) matches Some(
            Val::SliceLit { encoding, bytes },
        ) && encoding == SliceEncoding::Hex && 2 * bytes.len() == digits.len() + digits.len() % 2
            && forall|i: int|
            0 <= i < bytes.len() ==> #[trigger] bytes[i] == numbers::digit(digits[2 * i], 16)->0
                * 16 + (if 2 * i + 1 < digits.len() {
                numbers::digit(digits[2 * i + 1], 16)->0
            } else {
                0
            }),
{
    lemma_no_white(digits);
    lemma_hex(digits, capital);
    let even = syntax::padded(digits);
    let bytes = syntax::digit_bytes(even);
    assert forall|i: int| 0 <= i < bytes.len() implies #[trigger] bytes[i] == numbers::digit(
        digits[2 * i],
        16,
    )->0 * 16 + (if 2 * i + 1 < digits.len() {
        numbers::digit(digits[2 * i + 1], 16)->0
    } else {
        0
    }) by {
        assert(even[2 * i] == digits[2 * i]);
        lemma_digit(digits[2 * i]);
        if 2 * i + 1 < digits.len() {
            assert(even[2 * i + 1] == digits[2 * i + 1]);
            lemma_digit(digits[2 * i + 1]);
        } else {
            assert(even[2 * i + 1] == '0');
            lemma_digit('0');
        }
    }
}

proof fn lemma_white_dropped(a: Seq<char>, b: Seq<char>)
    ensures
        syntax::without_white(a + seq![' '] + b) == syntax::without_white(a + b),
    decreases b.len(),
{
    let s = a + seq![' '] + b;
    let t = a + b;
    if b.len() == 0 {
        assert(s.drop_last() =~= t);
        assert(s.last() == ' ');
    } else {
        lemma_white_dropped(a, b.drop_last());
        assert(s.last() == b.last());
        assert(t.last() == b.last());
        assert(s.drop_last() =~= a + seq![' '] + b.drop_last());
        assert(t.drop_last() =~= a + b.drop_last());
    }
}

/// A blank among the digits of a literal does not count.
pub proof fn law_blank_among_digits_does_not_count(a: Seq<char>, b: Seq<char>, capital: bool)
    requires
        numbers::all_digits(a, 16),
        numbers::all_digits(b, 16),
    ensures
        syntax::slice_shape(hex_text(a + seq![' '] + b, capital)) == syntax::slice_shape(
            hex_text(a + b, capital),
        ),
{
    lemma_no_white(a);
    lemma_no_white(b);
    let s = a + seq![' '] + b;
    let t = a + b;
    assert forall|i: int| 0 <= i < s.len() implies chars::ascii_white(#[trigger] s[i])
        || chars::hex_digit(s[i]) is Some by {
        if i < a.len() {
            assert(s[i] == a[i]);
        } else if i > a.len() {
            assert(s[i] == b[i - a.len() - 1]);
        }
    }
    assert forall|i: int| 0 <= i < t.len() implies chars::ascii_white(#[trigger] t[i])
        || chars::hex_digit(t[i]) is Some by {
        if i < a.len() {
            assert(t[i] == a[i]);
        } else {
            assert(t[i] == b[i - a.len()]);
        }
    }
    lemma_hex(s, capital);
    lemma_hex(t, capital);
    lemma_white_dropped(a, b);
}

} // verus!
