//! Recognition of the shapes of Tolk expressions: identifiers, calls, field
//! accesses and literals.

use vstd::prelude::*;

use crate::brackets;
use crate::chars;
use crate::text;
use crate::value::{SliceEncoding, Val, Value};

verus! {

/// Every character of `s` may stand in an identifier.
pub open spec fn all_word(s: Seq<char>) -> bool {
    forall|i: int| 0 <= i < s.len() ==> chars::word(#[trigger] s[i])
}

/// `s` is an identifier: a letter or an underscore, then letters, digits and
/// underscores, of any script.
pub open spec fn word_name(s: Seq<char>) -> bool {
    s.len() > 0 && chars::word_start(s[0]) && all_word(s.skip(1))
}

/// `s` is an identifier of ASCII characters.
pub open spec fn ascii_name(s: Seq<char>) -> bool {
    &&& s.len() > 0
    &&& chars::ascii_letter(s[0]) || s[0] == '_'
    &&& forall|i: int| 0 <= i < s.len() ==> chars::ascii_word(#[trigger] s[i])
}

/// `s` is an identifier but for white space around it.
pub open spec fn identifier(s: Seq<char>) -> bool {
    word_name(text::trimmed(s))
}

fn is_all_word(s: &str) -> (b: bool)
    ensures
        b == all_word(s@),
{
    let v = text::chars_of(s);
    let mut i: usize = 0;
    while i < v.len()
        invariant
            i <= v.len(),
            v@ == s@,
            forall|j: int| 0 <= j < i ==> chars::word(#[trigger] v@[j]),
        decreases v.len() - i,
    {
        if !chars::is_word(v[i]) {
            return false;
        }
        i += 1;
    }
    true
}

fn is_word_name(s: &str) -> (b: bool)
    ensures
        b == word_name(s@),
{
    s.unicode_len() > 0 && chars::is_word_start(s.get_char(0)) && is_all_word(text::tail(s, 1))
}

fn is_ascii_name(s: &str) -> (b: bool)
    ensures
        b == ascii_name(s@),
{
    let v = text::chars_of(s);
    if v.len() == 0 || !(chars::is_ascii_letter(v[0]) || v[0] == '_') {
        return false;
    }
    let mut i: usize = 0;
    while i < v.len()
        invariant
            i <= v.len(),
            v@ == s@,
            forall|j: int| 0 <= j < i ==> chars::ascii_word(#[trigger] v@[j]),
        decreases v.len() - i,
    {
        if !chars::is_ascii_word(v[i]) {
            return false;
        }
        i += 1;
    }
    true
}

/// Whether a text is an identifier: letters, digits and underscores, not
/// beginning with a digit.
pub fn is_simple_identifier(s: &str) -> (b: bool)
    ensures
        b == identifier(s@),
{
    is_word_name(text::trim(s))
}

/// A name without its generic arguments: the bracketed group `<...>` that ends
/// the trimmed text is cut off.
pub open spec fn bare_name(s: Seq<char>) -> Seq<char> {
    let t = text::trimmed(s);
    if t.len() > 0 && t.last() == '>' {
        match brackets::matching_open(t, '<', '>') {
            Some(p) => text::rtrim(t.take(p)),
            None => t,
        }
    } else {
        t
    }
}

/// Strip the generic arguments of a name: `max<int>` is `max`, and so is
/// `max`. The brackets must balance.
pub fn strip_generic_args(s: &str) -> (r: &str)
    ensures
        r@ == bare_name(s@),
{
    let t = text::trim(s);
    if !text::ends_with_char(t, '>') {
        return t;
    }
    match brackets::find_matching_open(t, '<', '>') {
        Some(p) => text::trim_end(text::head(t, p)),
        None => t,
    }
}

/// The name and the arguments of a call `name(args)`.
pub open spec fn call_shape(s: Seq<char>) -> Option<(Seq<char>, Seq<Seq<char>>)> {
    let t = text::trimmed(s);
    if t.len() == 0 || t.last() != ')' {
        None
    } else {
        match brackets::matching_open(t, '(', ')') {
            None => None,
            Some(open) => {
                let name = bare_name(text::trimmed(t.take(open)));
                if ascii_name(name) {
                    Some((name, brackets::comma_pieces(t.subrange(open + 1, t.len() - 1))))
                } else {
                    None
                }
            },
        }
    }
}

/// The view of a recognised call.
pub open spec fn call_view(r: Option<(&str, Vec<String>)>) -> Option<(Seq<char>, Seq<Seq<char>>)> {
    match r {
        Some((name, args)) => Some((name@, text::texts(args@))),
        None => None,
    }
}

/// Recognise a call: an identifier, perhaps with generic arguments, and a
/// parenthesised list of arguments that ends the text.
pub fn parse_call_with_args<'a>(expr: &'a str) -> (r: Option<(&'a str, Vec<String>)>)
    ensures
        call_view(r) == call_shape(expr@),
{
    let t = text::trim(expr);
    if !text::ends_with_char(t, ')') {
        return None;
    }
    match brackets::find_matching_open(t, '(', ')') {
        None => None,
        Some(open) => {
            let name = strip_generic_args(text::trim(text::head(t, open)));
            if !is_ascii_name(name) {
                return None;
            }
            let n: usize = t.unicode_len();
            assert(open < n - 1);
            let args = brackets::split_top_level_commas(text::slice(t, open + 1, n - 1));
            Some((name, args))
        },
    }
}

/// The name in a call without arguments, `name()`.
pub open spec fn nullary_call(s: Seq<char>) -> Option<Seq<char>> {
    match text::before(text::trimmed(s), "()"@) {
        Some(head) => {
            let name = text::trimmed(head);
            if name.len() > 0 && all_word(name) {
                Some(name)
            } else {
                None
            }
        },
        None => None,
    }
}

/// Recognise a call without arguments and return its name.
pub fn parse_function_call(expr: &str) -> (r: Option<String>)
    ensures
        text::opt_text(r) == nullary_call(expr@),
{
    match text::strip_suffix(text::trim(expr), "()") {
        Some(head) => {
            let name = text::trim(head);
            if name.unicode_len() > 0 && is_all_word(name) {
                Some(name.to_owned())
            } else {
                None
            }
        },
        None => None,
    }
}

/// The receiver, the method and the arguments of a call `lhs.method(args)`:
/// the dot is the last one before the argument list and outside every bracket.
pub open spec fn method_shape(s: Seq<char>) -> Option<
    (Seq<char>, Seq<char>, Seq<Seq<char>>),
> {
    let t = text::trimmed(s);
    if t.len() == 0 || t.last() != ')' {
        None
    } else {
        match brackets::matching_open(t, '(', ')') {
            None => None,
            Some(open) => {
                let callee = text::rtrim(t.take(open));
                match text::rfind(callee, '.') {
                    None => None,
                    Some(dot) => {
                        let method = text::trimmed(callee.skip(dot + 1));
                        let lhs = text::trimmed(t.take(dot));
                        if word_name(method) && brackets::depth(t.take(dot)) == 0 && lhs.len()
                            > 0 {
                            Some(
                                (
                                    lhs,
                                    method,
                                    brackets::comma_pieces(t.subrange(open + 1, t.len() - 1)),
                                ),
                            )
                        } else {
                            None
                        }
                    },
                }
            },
        }
    }
}

/// The view of a recognised method call.
pub open spec fn method_view(r: Option<(&str, &str, Vec<String>)>) -> Option<
    (Seq<char>, Seq<char>, Seq<Seq<char>>),
> {
    match r {
        Some((lhs, method, args)) => Some((lhs@, method@, text::texts(args@))),
        None => None,
    }
}

/// Recognise a method call `lhs.method(args)`. In a chain of calls the last
/// method is the one recognised, and the rest of the chain is its receiver.
pub fn parse_method_call<'a>(expr: &'a str) -> (r: Option<(&'a str, &'a str, Vec<String>)>)
    ensures
        method_view(r) == method_shape(expr@),
{
    let t = text::trim(expr);
    if !text::ends_with_char(t, ')') {
        return None;
    }
    match brackets::find_matching_open(t, '(', ')') {
        None => None,
        Some(open) => {
            let callee = text::trim_end(text::head(t, open));
            proof {
                text::lemma_trim_len(t@.take(open as int));
            }
            match text::rfind_char(callee, '.') {
                None => None,
                Some(dot) => {
                    let n: usize = t.unicode_len();
                    assert(dot < open < n - 1);
                    let method = text::trim(text::tail(callee, dot + 1));
                    if !is_word_name(method) {
                        return None;
                    }
                    let prefix = text::head(t, dot);
                    if brackets::bracket_depth(prefix) != 0 {
                        return None;
                    }
                    let lhs = text::trim(prefix);
                    if lhs.unicode_len() == 0 {
                        return None;
                    }
                    let args = brackets::split_top_level_commas(text::slice(t, open + 1, n - 1));
                    Some((lhs, method, args))
                },
            }
        },
    }
}

/// `s` split at its last dot outside every bracket: a base that is not blank
/// and a name or number behind it.
pub open spec fn dot_parts(s: Seq<char>) -> Option<(Seq<char>, Seq<char>)> {
    match brackets::last_dot(s) {
        None => None,
        Some(pos) => {
            let lhs = text::trimmed(s.take(pos));
            let field = text::trimmed(s.skip(pos + 1));
            if lhs.len() > 0 && field.len() > 0 && all_word(field) {
                Some((lhs, field))
            } else {
                None
            }
        },
    }
}

/// "An arithmetic sign outside every bracket stands at this index."
pub open spec fn sign_at(s: Seq<char>) -> spec_fn(int) -> bool {
    |i: int|
        {
            &&& s[i] == '+' || s[i] == '-' || s[i] == '*' || s[i] == '/' || s[i] == '%'
            &&& brackets::depth(s.take(i)) == 0
        }
}

/// `s` is arithmetic: it begins with a digit or holds an arithmetic sign
/// outside every bracket.
pub open spec fn arithmetic(s: Seq<char>) -> bool {
    (s.len() > 0 && chars::ascii_digit(s[0])) || text::first_from(
        0,
        s.len() as int,
        sign_at(s),
    ) is Some
}

/// The base and the field of an access `lhs.field`. A chain of accesses is
/// none, and neither is arithmetic.
pub open spec fn dot_shape(s: Seq<char>) -> Option<(Seq<char>, Seq<char>)> {
    match dot_parts(text::trimmed(s)) {
        Some((lhs, field)) => if dot_parts(lhs) is Some || arithmetic(lhs) {
            None
        } else {
            Some((lhs, field))
        },
        None => None,
    }
}

/// The view of a pair of slices.
pub open spec fn pair_view(r: Option<(&str, &str)>) -> Option<(Seq<char>, Seq<char>)> {
    match r {
        Some((a, b)) => Some((a@, b@)),
        None => None,
    }
}

fn is_arithmetic(s: &str) -> (b: bool)
    ensures
        b == arithmetic(s@),
{
    let v = text::chars_of(s);
    if v.len() > 0 && '0' <= v[0] && v[0] <= '9' {
        return true;
    }
    let mut d: i128 = 0;
    let mut i: usize = 0;
    assert(s@.take(0) =~= Seq::empty());
    while i < v.len()
        invariant
            i <= v.len(),
            v@ == s@,
            !(s@.len() > 0 && chars::ascii_digit(s@[0])),
            d == brackets::depth(s@.take(i as int)),
            -i <= d <= i,
            text::first_from(0, s@.len() as int, sign_at(s@)) == text::first_from(
                i as int,
                s@.len() as int,
                sign_at(s@),
            ),
        decreases v.len() - i,
    {
        proof {
            brackets::lemma_depth_take(s@, i as int);
        }
        let c = v[i];
        if d == 0 && (c == '+' || c == '-' || c == '*' || c == '/' || c == '%') {
            return true;
        }
        if c == '(' || c == '[' || c == '{' {
            d = d + 1;
        } else if c == ')' || c == ']' || c == '}' {
            d = d - 1;
        }
        i += 1;
    }
    false
}

/// Recognise a field access `lhs.field`, the field being a name or an index.
/// A chain of accesses is not recognised, and neither is arithmetic.
pub fn split_top_level_dot<'a>(expr: &'a str) -> (r: Option<(&'a str, &'a str)>)
    ensures
        pair_view(r) == dot_shape(expr@),
{
    match split_last_dot(text::trim(expr)) {
        Some((lhs, field)) => if split_last_dot(lhs).is_some() || is_arithmetic(lhs) {
            None
        } else {
            Some((lhs, field))
        },
        None => None,
    }
}

fn split_last_dot<'a>(t: &'a str) -> (r: Option<(&'a str, &'a str)>)
    ensures
        pair_view(r) == dot_parts(t@),
{
    match brackets::find_last_dot(t) {
        None => None,
        Some(pos) => {
            let n: usize = t.unicode_len();
            assert(pos < n);
            let lhs = text::trim(text::head(t, pos));
            let field = text::trim(text::tail(t, pos + 1));
            if lhs.unicode_len() > 0 && field.unicode_len() > 0 && is_all_word(field) {
                Some((lhs, field))
            } else {
                None
            }
        },
    }
}

/// A closing bracket before the end of `s` brings the depth to zero.
pub open spec fn closes_early(s: Seq<char>) -> bool {
    exists|i: int|
        0 <= i < s.len() - 1 && brackets::step(#[trigger] s[i]) == -1 && brackets::depth(
            s.take(i + 1),
        ) == 0
}

/// The elements of a tuple literal `(a, b, ...)` of at least two elements.
pub open spec fn tuple_shape(s: Seq<char>) -> Option<Seq<Seq<char>>> {
    let t = text::trimmed(s);
    if t.len() >= 2 && t[0] == '(' && t.last() == ')' && !closes_early(t) && brackets::depth(t)
        == 0 {
        let parts = brackets::comma_pieces(t.subrange(1, t.len() - 1));
        if parts.len() >= 2 {
            Some(parts)
        } else {
            None
        }
    } else {
        None
    }
}

/// Whether a closing bracket before the end brings the depth to zero.
fn is_closed_early(s: &str) -> (b: bool)
    ensures
        b == closes_early(s@),
{
    let v = text::chars_of(s);
    if v.len() == 0 {
        return false;
    }
    let n: usize = v.len() - 1;
    let mut d: i128 = 0;
    let mut i: usize = 0;
    assert(s@.take(0) =~= Seq::empty());
    while i < n
        invariant
            i <= n,
            n == v.len() - 1,
            v@ == s@,
            d == brackets::depth(s@.take(i as int)),
            -i <= d <= i,
            forall|j: int|
                0 <= j < i ==> !(brackets::step(#[trigger] s@[j]) == -1 && brackets::depth(
                    s@.take(j + 1),
                ) == 0),
        decreases n - i,
    {
        proof {
            brackets::lemma_depth_take(s@, i as int);
        }
        let c = v[i];
        if c == '(' || c == '[' || c == '{' {
            d = d + 1;
        } else if c == ')' || c == ']' || c == '}' {
            d = d - 1;
            if d == 0 {
                assert(brackets::step(s@[i as int]) == -1);
                return true;
            }
        }
        i += 1;
    }
    false
}

/// Recognise a tuple literal. A single expression in parentheses is none.
pub fn parse_tuple_literal(expr: &str) -> (r: Option<Vec<String>>)
    ensures
        match r {
            Some(parts) => tuple_shape(expr@) == Some(text::texts(parts@)),
            None => tuple_shape(expr@) is None,
        },
{
    let t = text::trim(expr);
    let n: usize = t.unicode_len();
    if n < 2 || !text::starts_with_char(t, '(') || !text::ends_with_char(t, ')') {
        return None;
    }
    if is_closed_early(t) || brackets::bracket_depth(t) != 0 {
        return None;
    }
    let parts = brackets::split_top_level_commas(text::slice(t, 1, n - 1));
    assert(text::texts(parts@).len() == parts@.len());
    if parts.len() < 2 {
        None
    } else {
        Some(parts)
    }
}

/// The name and the expression of a field `name: expr`.
pub open spec fn field_shape(p: Seq<char>) -> Option<(Seq<char>, Seq<char>)> {
    match text::find(p, ':') {
        None => None,
        Some(colon) => {
            let name = text::trimmed(p.take(colon));
            let expr = text::trimmed(p.skip(colon + 1));
            if name.len() > 0 && expr.len() > 0 && identifier(name) {
                Some((name, expr))
            } else {
                None
            }
        },
    }
}

/// The fields of a list of `name: expr`, if every one has this shape.
pub open spec fn all_fields(parts: Seq<Seq<char>>) -> Option<Seq<(Seq<char>, Seq<char>)>>
    decreases parts.len(),
{
    if parts.len() == 0 {
        Some(Seq::empty())
    } else {
        match (all_fields(parts.drop_last()), field_shape(parts.last())) {
            (Some(fields), Some(field)) => Some(fields.push(field)),
            _ => None,
        }
    }
}

/// The type name and the fields of a struct literal `Type { name: expr, ... }`.
pub open spec fn struct_shape(s: Seq<char>) -> Option<
    (Seq<char>, Seq<(Seq<char>, Seq<char>)>),
> {
    let t = text::trimmed(s);
    match text::find(t, '{') {
        None => None,
        Some(open) => {
            let name = bare_name(text::trimmed(t.take(open)));
            if t.last() == '}' && name.len() > 0 && identifier(name) && chars::capital(name[0]) {
                match all_fields(brackets::comma_pieces(t.subrange(open + 1, t.len() - 1))) {
                    Some(fields) => Some((name, fields)),
                    None => None,
                }
            } else {
                None
            }
        },
    }
}

/// The views of a list of pairs of strings.
pub open spec fn pairs(v: Seq<(String, String)>) -> Seq<(Seq<char>, Seq<char>)> {
    v.map_values(|p: (String, String)| (p.0@, p.1@))
}

pub proof fn lemma_pairs_push(v: Seq<(String, String)>, p: (String, String))
    ensures
        pairs(v.push(p)) == pairs(v).push((p.0@, p.1@)),
{
    assert(pairs(v.push(p)) =~= pairs(v).push((p.0@, p.1@)));
}

/// Once a part of the list is no field, the list has no fields.
proof fn lemma_fields_none(parts: Seq<Seq<char>>, n: int)
    requires
        0 <= n <= parts.len(),
        all_fields(parts.take(n)) is None,
    ensures
        all_fields(parts) is None,
    decreases parts.len() - n,
{
    if n == parts.len() {
        assert(parts.take(n) =~= parts);
    } else {
        assert(parts.take(n + 1).drop_last() =~= parts.take(n));
        lemma_fields_none(parts, n + 1);
    }
}

/// Recognise a struct literal. The type name begins with an upper-case letter.
pub fn parse_struct_literal(expr: &str) -> (r: Option<(String, Vec<(String, String)>)>)
    ensures
        match r {
            Some((name, fields)) => struct_shape(expr@) == Some((name@, pairs(fields@))),
            None => struct_shape(expr@) is None,
        },
{
    let t = text::trim(expr);
    match text::find_char(t, '{') {
        None => None,
        Some(open) => {
            if !text::ends_with_char(t, '}') {
                return None;
            }
            let name = strip_generic_args(text::trim(text::head(t, open)));
            if name.unicode_len() == 0 || !is_simple_identifier(name) {
                return None;
            }
            if !chars::is_capital(name.get_char(0)) {
                return None;
            }
            let n: usize = t.unicode_len();
            assert(open < n - 1);
            let parts = brackets::split_top_level_commas(text::slice(t, open + 1, n - 1));
            let ghost all = text::texts(parts@);
            let mut out: Vec<(String, String)> = Vec::new();
            let mut i: usize = 0;
            assert(all.take(0) =~= Seq::empty());
            assert(pairs(out@) =~= Seq::empty());
            while i < parts.len()
                invariant
                    i <= parts.len(),
                    all == text::texts(parts@),
                    all_fields(all.take(i as int)) == Some(pairs(out@)),
                    all == brackets::comma_pieces(t@.subrange(open + 1, t@.len() - 1)),
                    text::trimmed(expr@) == t@,
                    text::find(t@, '{') == Some(open as int),
                    t@.last() == '}',
                    name@ == bare_name(text::trimmed(t@.take(open as int))),
                decreases parts.len() - i,
            {
                let p = parts[i].as_str();
                let ghost next = all.take(i + 1);
                proof {
                    assert(next.drop_last() =~= all.take(i as int));
                    assert(next.last() == p@);
                }
                let colon = match text::find_char(p, ':') {
                    Some(colon) => colon,
                    None => {
                        proof {
                            lemma_fields_none(all, i + 1);
                        }
                        return None;
                    },
                };
                let k: usize = p.unicode_len();
                assert(colon < k);
                let field_name = text::trim(text::head(p, colon));
                let field_expr = text::trim(text::tail(p, colon + 1));
                if field_name.unicode_len() == 0 || field_expr.unicode_len() == 0
                    || !is_simple_identifier(field_name) {
                    proof {
                        lemma_fields_none(all, i + 1);
                    }
                    return None;
                }
                let field: (String, String) = (field_name.to_owned(), field_expr.to_owned());
                proof {
                    lemma_pairs_push(out@, field);
                }
                out.push(field);
                i += 1;
            }
            assert(all.take(i as int) =~= all);
            Some((name.to_owned(), out))
        },
    }
}

/// `s` without its ASCII white space.
pub open spec fn without_white(s: Seq<char>) -> Seq<char>
    decreases s.len(),
{
    if s.len() == 0 {
        Seq::empty()
    } else if chars::ascii_white(s.last()) {
        without_white(s.drop_last())
    } else {
        without_white(s.drop_last()).push(s.last())
    }
}

/// Every character of `s` is a hexadecimal digit or ASCII white space.
pub open spec fn hex_or_white(s: Seq<char>) -> bool {
    forall|i: int|
        0 <= i < s.len() ==> chars::ascii_white(#[trigger] s[i]) || chars::hex_digit(s[i]) is Some
}

/// The digits padded with a `0` to an even number.
pub open spec fn padded(s: Seq<char>) -> Seq<char> {
    if s.len() % 2 == 1 {
        s.push('0')
    } else {
        s
    }
}

/// The bytes that pairs of hexadecimal digits write.
pub open spec fn digit_bytes(s: Seq<char>) -> Seq<u8> {
    Seq::new(
        s.len() / 2,
        |i: int| (chars::hex_digit(s[2 * i])->0 * 16 + chars::hex_digit(s[2 * i + 1])->0) as u8,
    )
}

/// The text that the body of a text literal writes from index `i` on: the
/// escapes `\\`, `\"`, `\n` and `\t` stand for one character, every other
/// backslash for itself.
pub open spec fn unescaped(s: Seq<char>, i: int) -> Seq<char>
    decreases s.len() - i,
{
    if i >= s.len() {
        Seq::empty()
    } else if s[i] != '\\' {
        seq![s[i]] + unescaped(s, i + 1)
    } else if i + 1 >= s.len() {
        seq!['\\']
    } else if s[i + 1] == '\\' {
        seq!['\\'] + unescaped(s, i + 2)
    } else if s[i + 1] == '"' {
        seq!['"'] + unescaped(s, i + 2)
    } else if s[i + 1] == 'n' {
        seq!['\n'] + unescaped(s, i + 2)
    } else if s[i + 1] == 't' {
        seq!['\t'] + unescaped(s, i + 2)
    } else {
        seq!['\\', s[i + 1]] + unescaped(s, i + 2)
    }
}

/// No quote stands in `s` from index `i` on but behind a backslash.
pub open spec fn quotes_escaped(s: Seq<char>, i: int) -> bool
    decreases s.len() - i,
{
    if i >= s.len() {
        true
    } else if s[i] == '\\' {
        i + 1 >= s.len() || quotes_escaped(s, i + 2)
    } else {
        s[i] != '"' && quotes_escaped(s, i + 1)
    }
}

/// The slice that a literal `"text"` or `0x"digits"` writes. Two literals are
/// not one.
pub open spec fn slice_shape(s: Seq<char>) -> Option<Val> {
    let t = text::trimmed(s);
    let hex = if text::after(t, "0x\""@) is Some {
        text::after(t, "0x\""@)
    } else {
        text::after(t, "0X\""@)
    };
    if t.len() < 2 {
        None
    } else if hex is Some {
        match text::before(hex->0, "\""@) {
            Some(body) => if hex_or_white(body) {
                Some(
                    Val::SliceLit {
                        encoding: SliceEncoding::Hex,
                        bytes: digit_bytes(padded(without_white(body))),
                    },
                )
            } else {
                None
            },
            None => None,
        }
    } else {
        match text::after(t, "\""@) {
            Some(rest) => match text::before(rest, "\""@) {
                Some(body) => if quotes_escaped(body, 0) {
                    Some(
                        Val::SliceLit {
                            encoding: SliceEncoding::Text,
                            bytes: vstd::utf8::encode_utf8(unescaped(body, 0)),
                        },
                    )
                } else {
                    None
                },
                None => None,
            },
            None => None,
        }
    }
}

/// The bytes of the hexadecimal digits of a literal, or `None` if a character
/// is neither a digit nor white space.
fn hex_body(body: &str) -> (r: Option<Vec<u8>>)
    ensures
        match r {
            Some(bytes) => hex_or_white(body@) && bytes@ == digit_bytes(
                padded(without_white(body@)),
            ),
            None => !hex_or_white(body@),
        },
{
    let v = text::chars_of(body);
    let mut clean: Vec<char> = Vec::new();
    let mut i: usize = 0;
    assert(v@.take(0) =~= Seq::empty());
    while i < v.len()
        invariant
            i <= v.len(),
            v@ == body@,
            clean@ =~= without_white(v@.take(i as int)),
            forall|j: int|
                0 <= j < i ==> chars::ascii_white(#[trigger] v@[j]) || chars::hex_digit(v@[j])
                    is Some,
            forall|j: int| 0 <= j < clean@.len() ==> chars::hex_digit(#[trigger] clean@[j]) is Some,
        decreases v.len() - i,
    {
        assert(v@.take(i + 1).drop_last() =~= v@.take(i as int));
        let c = v[i];
        if !chars::is_ascii_white(c) {
            if chars::hex_digit_value(c).is_none() {
                assert(!(chars::ascii_white(body@[i as int]) || chars::hex_digit(body@[i as int])
                    is Some));
                return None;
            }
            clean.push(c);
        }
        i += 1;
    }
    assert(v@.take(i as int) =~= body@);
    let ghost digits = clean@;
    if clean.len() % 2 == 1 {
        clean.push('0');
        assert(chars::hex_digit('0') is Some);
    }
    let mut bytes: Vec<u8> = Vec::new();
    let mut k: usize = 0;
    while k + 1 < clean.len()
        invariant
            k <= clean.len(),
            k % 2 == 0,
            clean@.len() % 2 == 0,
            clean@ == padded(digits),
            bytes@.len() == k / 2,
            bytes@ =~= digit_bytes(clean@).take(k as int / 2),
            forall|j: int| 0 <= j < clean@.len() ==> chars::hex_digit(#[trigger] clean@[j]) is Some,
        decreases clean.len() - k,
    {
        let hi = match chars::hex_digit_value(clean[k]) {
            Some(d) => d,
            None => 0,
        };
        let lo = match chars::hex_digit_value(clean[k + 1]) {
            Some(d) => d,
            None => 0,
        };
        assert(digit_bytes(clean@)[k as int / 2] == (hi * 16 + lo) as u8);
        bytes.push(hi * 16 + lo);
        k += 2;
    }
    assert(bytes@ =~= digit_bytes(clean@));
    Some(bytes)
}

fn has_escaped_quotes(body: &str) -> (b: bool)
    ensures
        b == quotes_escaped(body@, 0),
{
    let v = text::chars_of(body);
    let mut i: usize = 0;
    while i < v.len()
        invariant
            i <= v.len(),
            v@ == body@,
            quotes_escaped(body@, 0) == quotes_escaped(body@, i as int),
        decreases v.len() - i,
    {
        if v[i] == '\\' {
            if i + 1 >= v.len() {
                return true;
            }
            i += 2;
        } else if v[i] == '"' {
            return false;
        } else {
            i += 1;
        }
    }
    true
}

/// The text that the body of a text literal writes.
fn unescape(body: &str) -> (r: String)
    ensures
        r@ == unescaped(body@, 0),
{
    let v = text::chars_of(body);
    let mut out = String::new();
    let mut i: usize = 0;
    while i < v.len()
        invariant
            i <= v.len(),
            v@ == body@,
            out@ + unescaped(body@, i as int) == unescaped(body@, 0),
        decreases v.len() - i,
    {
        let ghost done = out@;
        if v[i] != '\\' {
            out.push(v[i]);
            assert(done + (seq![v@[i as int]] + unescaped(body@, i + 1)) =~= out@ + unescaped(
                body@,
                i + 1,
            ));
            i += 1;
        } else if i + 1 >= v.len() {
            out.push('\\');
            assert(done + seq!['\\'] =~= out@ + unescaped(body@, i + 1));
            i += 1;
        } else {
            let c = v[i + 1];
            if c == '\\' {
                out.push('\\');
            } else if c == '"' {
                out.push('"');
            } else if c == 'n' {
                out.push('\n');
            } else if c == 't' {
                out.push('\t');
            } else {
                out.push('\\');
                out.push(c);
            }
            assert(done + unescaped(body@, i as int) =~= out@ + unescaped(body@, i + 2));
            i += 2;
        }
    }
    assert(out@ + unescaped(body@, i as int) =~= out@);
    out
}

/// The UTF-8 bytes of a text.
fn utf8_bytes(s: &str) -> (r: Vec<u8>)
    ensures
        r@ == vstd::utf8::encode_utf8(s@),
{
    s.as_bytes_vec()
}

/// Recognise a literal slice: a text in quotes, or hexadecimal digits in quotes
/// behind `0x`.
pub fn parse_slice_literal(expr: &str) -> (r: Option<Value>)
    ensures
        match r {
            Some(v) => slice_shape(expr@) == Some(v.model()),
            None => slice_shape(expr@) is None,
        },
{
    let t = text::trim(expr);
    if t.unicode_len() < 2 {
        return None;
    }
    let hex = match text::strip_prefix(t, "0x\"") {
        Some(rest) => Some(rest),
        None => text::strip_prefix(t, "0X\""),
    };
    if let Some(rest) = hex {
        return match text::strip_suffix(rest, "\"") {
            Some(body) => match hex_body(body) {
                Some(bytes) => Some(Value::SliceLit { encoding: SliceEncoding::Hex, bytes }),
                None => None,
            },
            None => None,
        };
    }
    match text::strip_prefix(t, "\"") {
        Some(rest) => match text::strip_suffix(rest, "\"") {
            Some(body) => {
                if !has_escaped_quotes(body) {
                    return None;
                }
                let plain = unescape(body);
                let bytes = utf8_bytes(plain.as_str());
                Some(Value::SliceLit { encoding: SliceEncoding::Text, bytes })
            },
            None => None,
        },
        None => None,
    }
}

/// A name is none of the other shapes.
pub proof fn lemma_name_is_plain(name: Seq<char>)
    requires
        word_name(name),
        text::trimmed(name) == name,
    ensures
        forall|i: int|
            0 <= i < name.len() && chars::ascii(#[trigger] name[i]) ==> chars::ascii_word(name[i]),
        slice_shape(name) is None,
        call_shape(name) is None,
        method_shape(name) is None,
        struct_shape(name) is None,
        tuple_shape(name) is None,
        identifier(name),
{
    reveal_strlit("0x\"");
    reveal_strlit("0X\"");
    reveal_strlit("\"");
    assert forall|i: int| 0 <= i < name.len() && chars::ascii(#[trigger] name[i]) implies
        chars::ascii_word(name[i]) by {
        if i > 0 {
            assert(name.skip(1)[i - 1] == name[i]);
        }
    }
    assert(name.last() == name[name.len() - 1]);
    text::lemma_first_from(0, name.len() as int, text::is_at(name, '{'));
    if "0x\""@.is_prefix_of(name) {
        assert(name[2] == name.subrange(0, 3)[2]);
    }
    if "0X\""@.is_prefix_of(name) {
        assert(name[2] == name.subrange(0, 3)[2]);
    }
    if "\""@.is_prefix_of(name) {
        assert(name[0] == name.subrange(0, 1)[0]);
    }
}

/// An ASCII letter, digit or underscore may stand in an identifier.
pub proof fn lemma_ascii_is_word(c: char)
    requires
        chars::ascii_word(c),
    ensures
        chars::word(c),
{
    assert(c <= 0x10_ffff);
    assert(c as u32 == c as int);
}

/// A name does not begin with a digit or a bracket.
pub proof fn lemma_word_start(name: Seq<char>)
    requires
        word_name(name),
    ensures
        !('0' <= name[0] <= '9'),
        name[0] != '(',
{
    lemma_start(name[0]);
}

proof fn lemma_start(c: char)
    requires
        chars::word_start(c),
    ensures
        !('0' <= c <= '9'),
        c != '(',
{
    assert(c <= 0x10_ffff);
    assert(c as u32 == c as int);
}

/// Generic arguments do not count: a name with a bracketed group behind it is
/// that name, and a name without one is itself.
pub proof fn law_generic_arguments_do_not_count(name: Seq<char>, args: Seq<char>)
    requires
        name.len() > 0,
        text::trimmed(name) == name,
        name.last() != '>',
        brackets::pair_depth(args, '<', '>') == 0,
        forall|i: int|
            0 <= i <= args.len() ==> brackets::pair_depth(#[trigger] args.take(i), '<', '>') >= 0,
    ensures
        bare_name(name) == name,
        bare_name(name + "<"@ + args + ">"@) == name,
{
    reveal_strlit("<");
    reveal_strlit(">");
    let all = name + "<"@ + args + ">"@;
    let n = name.len() as int;
    text::lemma_trimmed_ends(name);
    assert(all[0] == name[0]);
    assert(all.last() == '>');
    text::lemma_trimmed_already(all);
    let p = brackets::matches_end(all, '<', '>');
    assert forall|i: int| n <= i < all.len() implies #[trigger] p(i) == (i == n) by {
        lemma_group_suffix(name, args, i);
    }
    assert(text::last_below(all.len() as int, p) == Some(n)) by {
        lemma_last_is(all.len() as int, p, n);
    }
    assert(all.take(n) =~= name);
    assert(text::rtrim(name) == name);
}

proof fn lemma_last_is(m: int, p: spec_fn(int) -> bool, n: int)
    requires
        0 <= n < m,
        forall|i: int| n <= i < m ==> #[trigger] p(i) == (i == n),
    ensures
        text::last_below(m, p) == Some(n),
    decreases m,
{
    assert(p(m - 1) == (m - 1 == n));
    if m - 1 > n {
        lemma_last_is(m - 1, p, n);
    }
}

/// The depth from an index inside the group to the end.
proof fn lemma_group_suffix(name: Seq<char>, args: Seq<char>, i: int)
    requires
        name.len() <= i < name.len() + args.len() + 2,
        brackets::pair_depth(args, '<', '>') == 0,
        forall|k: int|
            0 <= k <= args.len() ==> brackets::pair_depth(#[trigger] args.take(k), '<', '>') >= 0,
    ensures
        brackets::matches_end(name + "<"@ + args + ">"@, '<', '>')(i) == (i == name.len()),
{
    reveal_strlit("<");
    reveal_strlit(">");
    let all = name + "<"@ + args + ">"@;
    let n = name.len() as int;
    let close = seq!['>'];
    reveal_with_fuel(brackets::pair_depth, 2);
    assert(close.drop_last() =~= Seq::empty());
    assert(brackets::pair_depth(close, '<', '>') == -1);
    if i == n {
        let open = seq!['<'];
        assert(open.drop_last() =~= Seq::empty());
        assert(all.skip(n) =~= open + args + close);
        brackets::lemma_pair_add(open, args, '<', '>');
        brackets::lemma_pair_add(open + args, close, '<', '>');
    } else {
        let k = i - n - 1;
        if k < args.len() {
            let rest = args.skip(k);
            assert(all.skip(i) =~= rest + close);
            brackets::lemma_pair_add(rest, close, '<', '>');
            assert(args.take(k) + rest =~= args);
            brackets::lemma_pair_add(args.take(k), rest, '<', '>');
        } else {
            assert(all[i] == '>');
        }
    }
}

} // verus!
