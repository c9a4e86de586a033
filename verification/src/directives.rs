//! What a source declares outside its functions: imports, unions and the
//! messages to record.

use vstd::prelude::*;

use crate::expr;
use crate::functions;
use crate::names::NameSet;
use crate::numeral;
use crate::statement;
use crate::syntax;
use crate::text;

verus! {

/// The constructor that an alternative of a union names: what precedes its
/// payload, if that is an identifier.
pub open spec fn constructor_of(part: Seq<char>) -> Option<Seq<char>> {
    let name = text::trimmed(functions::until_char(text::trimmed(part), '('));
    if name.len() > 0 && syntax::identifier(name) {
        Some(name)
    } else {
        None
    }
}

/// The constructors among the alternatives of a union.
pub open spec fn constructors_among(parts: Seq<Seq<char>>) -> Set<Seq<char>>
    decreases parts.len(),
{
    if parts.len() == 0 {
        Set::empty()
    } else {
        let done = constructors_among(parts.drop_last());
        match constructor_of(parts.last()) {
            Some(name) => done.insert(name),
            None => done,
        }
    }
}

/// The alternatives on the right of a declaration `type X = A | B;`. A
/// declaration `type X = A;` is an alias and no union: it has none.
pub open spec fn alternatives_of(line: Seq<char>) -> Seq<Seq<char>> {
    match text::after(text::trimmed(line), "type "@) {
        None => Seq::empty(),
        Some(rest) => match text::find(rest, '=') {
            None => Seq::empty(),
            Some(eq) => {
                let parts = text::split_on(statement::bare(rest.skip(eq + 1)), '|');
                if parts.len() >= 2 {
                    parts
                } else {
                    Seq::empty()
                }
            },
        },
    }
}

/// The constructors of the unions that some lines declare.
pub open spec fn constructors_in(lines: Seq<Seq<char>>) -> Set<Seq<char>>
    decreases lines.len(),
{
    if lines.len() == 0 {
        Set::empty()
    } else {
        constructors_in(lines.drop_last()).union(constructors_among(alternatives_of(lines.last())))
    }
}

/// The constructors of the unions that a source declares.
pub open spec fn variant_constructors(source: Seq<char>) -> Set<Seq<char>> {
    constructors_in(text::lines_of(source))
}

fn parse_alternatives<'a>(line: &'a str) -> (r: Vec<&'a str>)
    ensures
        text::views(r@) == alternatives_of(line@),
{
    let none: Vec<&'a str> = Vec::new();
    assert(text::views(none@) =~= Seq::empty());
    match text::strip_prefix(text::trim(line), "type ") {
        None => none,
        Some(rest) => match text::find_char(rest, '=') {
            None => none,
            Some(eq) => {
                let n: usize = rest.unicode_len();
                assert(eq < n);
                let rhs = text::trim(
                    text::trim_end_char(text::trim(text::tail(rest, eq + 1)), ';'),
                );
                let parts = text::split_char(rhs, '|');
                assert(text::views(parts@).len() == parts@.len());
                if parts.len() >= 2 {
                    parts
                } else {
                    none
                }
            },
        },
    }
}

/// Add the constructors among some alternatives to a set.
fn add_constructors(parts: &Vec<&str>, out: &mut NameSet)
    ensures
        final(out)@ == old(out)@.union(constructors_among(text::views(parts@))),
{
    let ghost all = text::views(parts@);
    let ghost before = out@;
    let mut i: usize = 0;
    assert(all.take(0) =~= Seq::empty());
    assert(before.union(Set::empty()) =~= before);
    while i < parts.len()
        invariant
            i <= parts.len(),
            all == text::views(parts@),
            out@ == before.union(constructors_among(all.take(i as int))),
        decreases parts.len() - i,
    {
        proof {
            assert(all.take(i + 1).drop_last() =~= all.take(i as int));
            assert(all.take(i + 1).last() == parts@[i as int]@);
        }
        let name = text::trim(functions::head_until(text::trim(parts[i]), '('));
        if name.unicode_len() > 0 && syntax::is_simple_identifier(name) {
            out.insert(name);
        }
        assert(out@ =~= before.union(constructors_among(all.take(i + 1))));
        i += 1;
    }
    assert(all.take(i as int) =~= all);
}

/// Add the constructors of the unions that a source declares to a set.
pub fn add_variant_constructors(source: &str, out: &mut NameSet)
    ensures
        final(out)@ == old(out)@.union(variant_constructors(source@)),
{
    let lines = text::lines(source);
    let ghost all = text::views(lines@);
    let ghost before = out@;
    let mut i: usize = 0;
    assert(all.take(0) =~= Seq::empty());
    assert(before.union(Set::empty()) =~= before);
    while i < lines.len()
        invariant
            i <= lines.len(),
            all == text::views(lines@),
            out@ == before.union(constructors_in(all.take(i as int))),
        decreases lines.len() - i,
    {
        proof {
            assert(all.take(i + 1).drop_last() =~= all.take(i as int));
            assert(all.take(i + 1).last() == lines@[i as int]@);
        }
        let parts = parse_alternatives(lines[i]);
        add_constructors(&parts, out);
        assert(out@ =~= before.union(constructors_in(all.take(i + 1))));
        i += 1;
    }
    assert(all.take(i as int) =~= all);
}

/// The constructors of the unions `type X = A | B | C;` of a source: the names
/// whose struct literals are variants.
pub fn parse_variant_constructors(source: &str) -> (r: NameSet)
    ensures
        r@ == variant_constructors(source@),
{
    let mut out = NameSet::new();
    add_variant_constructors(source, &mut out);
    assert(Set::empty().union(variant_constructors(source@)) =~= variant_constructors(source@));
    out
}

/// The path in a line `import "path";`.
pub open spec fn import_of(line: Seq<char>) -> Option<Seq<char>> {
    match text::after(text::trimmed(line), "import"@) {
        None => None,
        Some(rest) => match text::after(text::trimmed(rest), "\""@) {
            None => None,
            Some(quoted) => match text::find(quoted, '"') {
                None => None,
                Some(close) => if close > 0 {
                    Some(quoted.take(close))
                } else {
                    None
                },
            },
        },
    }
}

/// The paths that some lines import, in order.
pub open spec fn imports_in(lines: Seq<Seq<char>>) -> Seq<Seq<char>>
    decreases lines.len(),
{
    if lines.len() == 0 {
        Seq::empty()
    } else {
        let done = imports_in(lines.drop_last());
        match import_of(lines.last()) {
            Some(path) => done.push(path),
            None => done,
        }
    }
}

/// The paths that a source imports, in order.
pub open spec fn imports_of(source: Seq<char>) -> Seq<Seq<char>> {
    imports_in(text::lines_of(source))
}

fn parse_import<'a>(line: &'a str) -> (r: Option<&'a str>)
    ensures
        text::opt_view(r) == import_of(line@),
{
    match text::strip_prefix(text::trim(line), "import") {
        None => None,
        Some(rest) => match text::strip_prefix(text::trim(rest), "\"") {
            None => None,
            Some(quoted) => match text::find_char(quoted, '"') {
                None => None,
                Some(close) => if close > 0 {
                    Some(text::head(quoted, close))
                } else {
                    None
                },
            },
        },
    }
}

/// The paths of the `import "path";` lines of a source.
pub fn parse_imports(source: &str) -> (r: Vec<String>)
    ensures
        text::texts(r@) == imports_of(source@),
{
    let lines = text::lines(source);
    let ghost all = text::views(lines@);
    let mut out: Vec<String> = Vec::new();
    let mut i: usize = 0;
    assert(all.take(0) =~= Seq::empty());
    assert(text::texts(out@) =~= Seq::empty());
    while i < lines.len()
        invariant
            i <= lines.len(),
            all == text::views(lines@),
            text::texts(out@) == imports_in(all.take(i as int)),
        decreases lines.len() - i,
    {
        proof {
            assert(all.take(i + 1).drop_last() =~= all.take(i as int));
            assert(all.take(i + 1).last() == lines@[i as int]@);
        }
        if let Some(path) = parse_import(lines[i]) {
            let path = path.to_owned();
            proof {
                text::lemma_texts_push(out@, path);
            }
            out.push(path);
        }
        i += 1;
    }
    assert(all.take(i as int) =~= all);
    out
}

/// The list of a directive `// @recorder:messages 1 2 3` (or behind `;;`).
pub open spec fn directive_of(line: Seq<char>) -> Option<Seq<char>> {
    let t = text::ltrim(line);
    match expr::or_else(text::after(t, "//"@), text::after(t, ";;"@)) {
        None => None,
        Some(rest) => match text::after(text::ltrim(rest), "@recorder:messages"@) {
            None => None,
            Some(list) => Some(text::trimmed(list)),
        },
    }
}

/// A mark that may follow a number in a directive.
pub open spec fn punctuation(c: char) -> bool {
    c == '.' || c == ';' || c == ':' || c == '!' || c == '?'
}

/// `s` without the punctuation at its end.
pub open spec fn without_punctuation(s: Seq<char>) -> Seq<char>
    decreases s.len(),
{
    if s.len() > 0 && punctuation(s.last()) {
        without_punctuation(s.drop_last())
    } else {
        s
    }
}

/// The operation code that a word of a directive writes, in decimal or behind
/// `0x` in hexadecimal.
pub open spec fn op_code_of(s: Seq<char>) -> Option<i64> {
    let hex = expr::or_else(text::after(s, "0x"@), text::after(s, "0X"@));
    let value = match hex {
        Some(digits) => numeral::int_value(digits, 16, i64::MIN as int, i64::MAX as int),
        None => numeral::i64_value(s),
    };
    match value {
        Ok(n) => Some(n as i64),
        Err(_) => None,
    }
}

/// The operation codes that some words write: words that are nothing but
/// punctuation are passed over, and a word that is no number spoils the list.
pub open spec fn op_codes_of(words: Seq<Seq<char>>) -> Option<Seq<i64>>
    decreases words.len(),
{
    if words.len() == 0 {
        Some(Seq::empty())
    } else {
        let word = without_punctuation(words.last());
        match op_codes_of(words.drop_last()) {
            None => None,
            Some(codes) => if word.len() == 0 {
                Some(codes)
            } else {
                match op_code_of(word) {
                    Some(n) => Some(codes.push(n)),
                    None => None,
                }
            },
        }
    }
}

/// `s` with its commas made spaces.
pub open spec fn commas_as_spaces(s: Seq<char>) -> Seq<char> {
    s.map_values(
        |c: char|
            if c == ',' {
                ' '
            } else {
                c
            },
    )
}

/// The operation codes of the first directive of some lines.
pub open spec fn messages_in(lines: Seq<Seq<char>>, i: int) -> Option<Seq<i64>>
    decreases lines.len() - i,
{
    if i >= lines.len() {
        None
    } else {
        match directive_of(lines[i]) {
            Some(list) => op_codes_of(text::words_of(commas_as_spaces(list))),
            None => messages_in(lines, i + 1),
        }
    }
}

/// The operation codes of the messages directive of a source.
pub open spec fn messages_of(source: Option<Seq<char>>) -> Option<Seq<i64>> {
    match source {
        Some(s) => messages_in(text::lines_of(s), 0),
        None => None,
    }
}

fn parse_directive<'a>(line: &'a str) -> (r: Option<&'a str>)
    ensures
        text::opt_view(r) == directive_of(line@),
{
    let t = text::trim_start(line);
    let rest = match text::strip_prefix(t, "//") {
        Some(rest) => rest,
        None => match text::strip_prefix(t, ";;") {
            Some(rest) => rest,
            None => {
                return None;
            },
        },
    };
    match text::strip_prefix(text::trim_start(rest), "@recorder:messages") {
        Some(list) => Some(text::trim(list)),
        None => None,
    }
}

fn strip_punctuation(s: &str) -> (r: &str)
    ensures
        r@ == without_punctuation(s@),
{
    let v = text::chars_of(s);
    let mut n: usize = v.len();
    assert(s@.take(n as int) =~= s@);
    while n > 0 && (v[n - 1] == '.' || v[n - 1] == ';' || v[n - 1] == ':' || v[n - 1] == '!' || v[n
        - 1] == '?')
        invariant
            n <= v.len(),
            v@ == s@,
            without_punctuation(s@) == without_punctuation(s@.take(n as int)),
        decreases n,
    {
        n -= 1;
        assert(s@.take(n + 1).drop_last() =~= s@.take(n as int));
    }
    text::head(s, n)
}

fn parse_op_code(s: &str) -> (r: Option<i64>)
    ensures
        r == op_code_of(s@),
{
    let parsed = match text::strip_prefix(s, "0x") {
        Some(digits) => numeral::parse_hex_i64(digits),
        None => match text::strip_prefix(s, "0X") {
            Some(digits) => numeral::parse_hex_i64(digits),
            None => numeral::parse_i64(s),
        },
    };
    match parsed {
        Ok(n) => Some(n),
        Err(_) => None,
    }
}

fn spaces_for_commas(s: &str) -> (r: String)
    ensures
        r@ == commas_as_spaces(s@),
{
    let v = text::chars_of(s);
    let mut out = String::new();
    let mut i: usize = 0;
    while i < v.len()
        invariant
            i <= v.len(),
            v@ == s@,
            out@ =~= commas_as_spaces(s@).take(i as int),
        decreases v.len() - i,
    {
        if v[i] == ',' {
            out.push(' ');
        } else {
            out.push(v[i]);
        }
        i += 1;
    }
    assert(out@ =~= commas_as_spaces(s@));
    out
}

/// Once a word spoils the list, more words do not mend it.
proof fn lemma_codes_none(words: Seq<Seq<char>>, n: int)
    requires
        0 <= n <= words.len(),
        op_codes_of(words.take(n)) is None,
    ensures
        op_codes_of(words) is None,
    decreases words.len() - n,
{
    if n == words.len() {
        assert(words.take(n) =~= words);
    } else {
        assert(words.take(n + 1).drop_last() =~= words.take(n));
        lemma_codes_none(words, n + 1);
    }
}

fn parse_op_codes(list: &str) -> (r: Option<Vec<i64>>)
    ensures
        match r {
            Some(codes) => op_codes_of(text::words_of(commas_as_spaces(list@))) == Some(codes@),
            None => op_codes_of(text::words_of(commas_as_spaces(list@))) is None,
        },
{
    let spaced = spaces_for_commas(list);
    let words = text::split_whitespace(spaced.as_str());
    let ghost all = text::views(words@);
    let mut codes: Vec<i64> = Vec::new();
    let mut i: usize = 0;
    assert(all.take(0) =~= Seq::empty());
    assert(codes@ =~= Seq::empty());
    while i < words.len()
        invariant
            i <= words.len(),
            all == text::views(words@),
            all == text::words_of(commas_as_spaces(list@)),
            op_codes_of(all.take(i as int)) == Some(codes@),
        decreases words.len() - i,
    {
        proof {
            assert(all.take(i + 1).drop_last() =~= all.take(i as int));
            assert(all.take(i + 1).last() == words@[i as int]@);
        }
        let word = strip_punctuation(words[i]);
        if word.unicode_len() > 0 {
            match parse_op_code(word) {
                Some(n) => {
                    codes.push(n);
                },
                None => {
                    proof {
                        lemma_codes_none(all, i + 1);
                    }
                    return None;
                },
            }
        }
        i += 1;
    }
    assert(all.take(i as int) =~= all);
    Some(codes)
}

/// The operation codes of the directive `// @recorder:messages 1 2 3`, which
/// asks for one recorded message per code. The first directive of the source
/// counts; white space and commas separate the codes, each in decimal or
/// hexadecimal and perhaps negative, and punctuation behind a code is
/// tolerated.
pub fn parse_multi_message_directive(source: Option<&str>) -> (r: Option<Vec<i64>>)
    ensures
        match r {
            Some(codes) => messages_of(text::opt_view(source)) == Some(codes@),
            None => messages_of(text::opt_view(source)) is None,
        },
{
    let body = match source {
        Some(body) => body,
        None => {
            return None;
        },
    };
    let lines = text::lines(body);
    let ghost all = text::views(lines@);
    let mut i: usize = 0;
    while i < lines.len()
        invariant
            i <= lines.len(),
            all == text::views(lines@),
            messages_in(all, 0) == messages_in(all, i as int),
            all == text::lines_of(body@),
            source == Some(body),
        decreases lines.len() - i,
    {
        assert(all[i as int] == lines@[i as int]@);
        if let Some(list) = parse_directive(lines[i]) {
            return parse_op_codes(list);
        }
        i += 1;
    }
    None
}

} // verus!
