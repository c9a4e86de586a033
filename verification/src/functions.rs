//! Parsing of function definitions.

use vstd::prelude::*;

use crate::ast;
use crate::ast::{Func, FunctionDef};
use crate::numeral;
use crate::parser;
use crate::syntax;
use crate::text;

verus! {

/// The name and the type of a parameter `name: type`.
pub open spec fn param_of(s: Seq<char>) -> Option<(Seq<char>, Seq<char>)> {
    let t = text::trimmed(s);
    match text::find(t, ':') {
        None => None,
        Some(colon) => {
            let name = text::trimmed(t.take(colon));
            let ty = text::trimmed(t.skip(colon + 1));
            if name.len() > 0 && ty.len() > 0 {
                Some((name, ty))
            } else {
                None
            }
        },
    }
}

/// The parameters among some texts, in order.
pub open spec fn params_among(parts: Seq<Seq<char>>) -> Seq<(Seq<char>, Seq<char>)>
    decreases parts.len(),
{
    if parts.len() == 0 {
        Seq::empty()
    } else {
        let done = params_among(parts.drop_last());
        match param_of(parts.last()) {
            Some(p) => done.push(p),
            None => done,
        }
    }
}

/// The parameters of a list `name: type, ...`; what has no such shape is
/// passed over.
pub open spec fn params_of(s: Seq<char>) -> Seq<(Seq<char>, Seq<char>)> {
    let t = text::trimmed(s);
    if t.len() == 0 {
        Seq::empty()
    } else {
        params_among(text::split_on(t, ','))
    }
}

/// Parse a parameter list like `a: int, b: int` into pairs of name and type.
pub fn parse_param_list(params_str: &str) -> (r: Vec<(String, String)>)
    ensures
        syntax::pairs(r@) == params_of(params_str@),
{
    let t = text::trim(params_str);
    let mut out: Vec<(String, String)> = Vec::new();
    assert(syntax::pairs(out@) =~= Seq::empty());
    if t.unicode_len() == 0 {
        return out;
    }
    let parts = text::split_char(t, ',');
    let ghost all = text::views(parts@);
    let mut i: usize = 0;
    assert(all.take(0) =~= Seq::empty());
    while i < parts.len()
        invariant
            i <= parts.len(),
            all == text::views(parts@),
            syntax::pairs(out@) == params_among(all.take(i as int)),
        decreases parts.len() - i,
    {
        proof {
            assert(all.take(i + 1).drop_last() =~= all.take(i as int));
            assert(all.take(i + 1).last() == parts@[i as int]@);
        }
        let p = text::trim(parts[i]);
        if let Some(colon) = text::find_char(p, ':') {
            let n: usize = p.unicode_len();
            assert(colon < n);
            let name = text::trim(text::head(p, colon));
            let ty = text::trim(text::tail(p, colon + 1));
            if name.unicode_len() > 0 && ty.unicode_len() > 0 {
                let pair: (String, String) = (name.to_owned(), ty.to_owned());
                proof {
                    syntax::lemma_pairs_push(out@, pair);
                }
                out.push(pair);
            }
        }
        i += 1;
    }
    assert(all.take(i as int) =~= all);
    out
}

/// The receiver type of `(self Type) ...` and what follows it; without such a
/// prefix no type, and the whole text without leading white space.
pub open spec fn receiver_of(s: Seq<char>) -> (Option<Seq<char>>, Seq<char>) {
    let t = text::ltrim(s);
    match text::after(t, "("@) {
        None => (None, t),
        Some(inner) => match text::find(inner, ')') {
            None => (None, t),
            Some(close) => {
                let words = text::words_of(text::trimmed(inner.take(close)));
                if words.len() == 2 && words[0] == "self"@ {
                    (Some(words[1]), text::ltrim(inner.skip(close + 1)))
                } else {
                    (None, t)
                }
            },
        },
    }
}

/// Recognise the receiver prefix `(self Type)` of a method declaration.
/// Returns the type and what follows the prefix.
pub fn parse_receiver_prefix<'a>(rest: &'a str) -> (r: (Option<String>, &'a str))
    ensures
        (text::opt_text(r.0), r.1@) == receiver_of(rest@),
{
    let t = text::trim_start(rest);
    let inner = match text::strip_prefix(t, "(") {
        Some(inner) => inner,
        None => {
            return (None, t);
        },
    };
    let close = match text::find_char(inner, ')') {
        Some(close) => close,
        None => {
            return (None, t);
        },
    };
    let words = text::split_whitespace(text::trim(text::head(inner, close)));
    assert(text::views(words@).len() == words@.len());
    if words.len() == 2 && text::str_eq(words[0], "self") {
        let n: usize = inner.unicode_len();
        assert(close < n);
        let after = text::trim_start(text::tail(inner, close + 1));
        (Some(words[1].to_owned()), after)
    } else {
        (None, t)
    }
}

/// The text up to the first `c`, or all of it.
pub open spec fn until_char(s: Seq<char>, c: char) -> Seq<char> {
    match text::find(s, c) {
        Some(i) => s.take(i),
        None => s,
    }
}

/// The text up to the first `c`, or all of it.
pub fn head_until(s: &str, c: char) -> (r: &str)
    ensures
        r@ == until_char(s@, c),
{
    match text::find_char(s, c) {
        Some(i) => text::head(s, i),
        None => s,
    }
}

/// The name of a function from what follows the receiver.
pub open spec fn function_name(receiver: Option<Seq<char>>, s: Seq<char>) -> Seq<char> {
    let bare = syntax::bare_name(text::trimmed(until_char(s, '(')));
    match receiver {
        Some(ty) => ty + "."@ + bare,
        None => bare,
    }
}

/// The parameters of a function from what follows the receiver; a method has
/// `self` first.
pub open spec fn function_params(receiver: Option<Seq<char>>, s: Seq<char>) -> Seq<
    (Seq<char>, Seq<char>),
> {
    let declared = match (text::find(s, '('), text::find(s, ')')) {
        (Some(open), Some(close)) => if open < close {
            params_of(s.subrange(open + 1, close))
        } else {
            Seq::empty()
        },
        _ => Seq::empty(),
    };
    match receiver {
        Some(ty) => seq![("self"@, ty)] + declared,
        None => declared,
    }
}

/// The declared type of the result: between the `:` behind the parameters and
/// the brace.
pub open spec fn return_type_of(s: Seq<char>) -> Option<Seq<char>> {
    match text::find(s, ')') {
        None => None,
        Some(close) => match text::after(text::trimmed(s.skip(close + 1)), ":"@) {
            None => None,
            Some(rest) => {
                let ty = text::trimmed(until_char(text::trimmed(rest), '{'));
                if ty.len() > 0 {
                    Some(ty)
                } else {
                    None
                }
            },
        },
    }
}

/// The number of an attribute `@method_id(n)`.
pub open spec fn method_id_of(t: Seq<char>) -> Option<i64> {
    match text::after(t, "@"@) {
        None => None,
        Some(rest) => match text::find(rest, '(') {
            None => None,
            Some(open) => {
                let args = rest.skip(open + 1);
                match text::find(args, ')') {
                    None => None,
                    Some(close) => if text::trimmed(rest.take(open)) == "method_id"@ {
                        match numeral::i64_value(text::trimmed(args.take(close))) {
                            Ok(n) => Some(n as i64),
                            Err(_) => None,
                        }
                    } else {
                        None
                    },
                }
            },
        },
    }
}

fn parse_method_id(t: &str) -> (r: Option<i64>)
    ensures
        r == method_id_of(t@),
{
    let rest = match text::strip_prefix(t, "@") {
        Some(rest) => rest,
        None => {
            return None;
        },
    };
    let open = match text::find_char(rest, '(') {
        Some(open) => open,
        None => {
            return None;
        },
    };
    let n: usize = rest.unicode_len();
    assert(open < n);
    let args = text::tail(rest, open + 1);
    let close = match text::find_char(args, ')') {
        Some(close) => close,
        None => {
            return None;
        },
    };
    if !text::str_eq(text::trim(text::head(rest, open)), "method_id") {
        return None;
    }
    match numeral::parse_i64(text::trim(text::head(args, close))) {
        Ok(n) => Some(n),
        Err(_) => None,
    }
}

/// The function whose definition stands at line `i`, `rest` being what follows
/// its keyword; and the line that closes it.
pub open spec fn function_at(
    lines: Seq<Seq<char>>,
    i: int,
    rest: Seq<char>,
    method_id: Option<i64>,
    path: Seq<char>,
) -> (Func, int) {
    let (receiver, tail) = receiver_of(rest);
    let (body, end) = parser::block_from(lines, i + 1);
    (
        Func {
            name: function_name(receiver, tail),
            return_type: return_type_of(tail),
            params: function_params(receiver, tail),
            body,
            line: (i + 1) as u32,
            method_id,
            source_path: path,
        },
        end,
    )
}

/// The functions defined from line `i` on. `pending` is the method id of the
/// attributes that the next function takes.
pub open spec fn functions_from(
    lines: Seq<Seq<char>>,
    i: int,
    pending: Option<i64>,
    path: Seq<char>,
) -> Seq<Func>
    decreases parser::left(lines, i),
{
    let t = parser::line_at(lines, i);
    if i >= lines.len() {
        Seq::empty()
    } else if t.len() > 0 && t[0] == '@' {
        let next = match method_id_of(t) {
            Some(n) => Some(n),
            None => pending,
        };
        functions_from(lines, i + 1, next, path)
    } else {
        match text::after(t, "fun "@) {
            None => functions_from(lines, i + 1, pending, path),
            Some(rest) => {
                let (f, end) = function_at(lines, i, rest, pending, path);
                let others = functions_from(
                    lines,
                    parser::next_line(lines, parser::past(i, end)),
                    None,
                    path,
                );
                if f.name.len() > 0 {
                    seq![f] + others
                } else {
                    others
                }
            },
        }
    }
}

/// The functions that a source defines, in order.
pub open spec fn functions_of(source: Seq<char>, path: Seq<char>) -> Seq<Func> {
    functions_from(text::lines_of(source), 0, None, path)
}

fn parse_return_type(s: &str) -> (r: Option<String>)
    ensures
        text::opt_text(r) == return_type_of(s@),
{
    let close = match text::find_char(s, ')') {
        Some(close) => close,
        None => {
            return None;
        },
    };
    let n: usize = s.unicode_len();
    assert(close < n);
    match text::strip_prefix(text::trim(text::tail(s, close + 1)), ":") {
        None => None,
        Some(rest) => {
            let ty = text::trim(head_until(text::trim(rest), '{'));
            if ty.unicode_len() > 0 {
                Some(ty.to_owned())
            } else {
                None
            }
        },
    }
}

fn parse_params(receiver: &Option<String>, s: &str) -> (r: Vec<(String, String)>)
    ensures
        syntax::pairs(r@) == function_params(text::opt_text(*receiver), s@),
{
    let mut declared: Vec<(String, String)> = match text::find_char(s, '(') {
        Some(open) => match text::find_char(s, ')') {
            Some(close) => if open < close {
                parse_param_list(text::slice(s, open + 1, close))
            } else {
                Vec::new()
            },
            None => Vec::new(),
        },
        None => Vec::new(),
    };
    let ghost before = declared@;
    assert(syntax::pairs(Seq::<(String, String)>::empty()) =~= Seq::empty());
    if let Some(ty) = receiver {
        let first: (String, String) = ("self".to_owned(), ty.clone());
        declared.insert(0, first);
        assert(syntax::pairs(declared@) =~= seq![("self"@, ty@)] + syntax::pairs(before));
    }
    declared
}

fn parse_name(receiver: &Option<String>, s: &str) -> (r: String)
    ensures
        r@ == function_name(text::opt_text(*receiver), s@),
{
    let bare = syntax::strip_generic_args(text::trim(head_until(s, '(')));
    match receiver {
        Some(ty) => text::concat3(ty.as_str(), ".", bare),
        None => bare.to_owned(),
    }
}

/// Parse the function definitions of a source file.
pub fn parse_functions(source: &str, source_path: &str) -> (r: Vec<FunctionDef>)
    ensures
        ast::funcs_model(r@) == functions_of(source@, source_path@),
{
    let lines = text::lines(source);
    let ghost all = text::views(lines@);
    let ghost path = source_path@;
    let mut out: Vec<FunctionDef> = Vec::new();
    let mut pending: Option<i64> = None;
    let mut i: usize = 0;
    assert(ast::funcs_model(out@) =~= Seq::empty());
    assert(Seq::<Func>::empty() + functions_of(source@, path) =~= functions_of(source@, path));
    while i < lines.len()
        invariant
            i <= lines.len(),
            all == text::views(lines@),
            all == text::lines_of(source@),
            path == source_path@,
            ast::funcs_model(out@) + functions_from(all, i as int, pending, path) == functions_of(
                source@,
                path,
            ),
        decreases lines.len() - i,
    {
        let t = text::trim(lines[i]);
        assert(t@ == parser::line_at(all, i as int));
        if text::starts_with_char(t, '@') {
            if let Some(n) = parse_method_id(t) {
                pending = Some(n);
            }
            i += 1;
            continue;
        }
        let rest = match text::strip_prefix(t, "fun ") {
            Some(rest) => rest,
            None => {
                i += 1;
                continue;
            },
        };
        let (receiver, tail) = parse_receiver_prefix(rest);
        let name = parse_name(&receiver, tail);
        let params = parse_params(&receiver, tail);
        let return_type = parse_return_type(tail);
        let (body, end) = parser::parse_block(&lines, i + 1);
        let next: usize = if end < lines.len() {
            end + 1
        } else {
            lines.len()
        };
        let ghost others = functions_from(all, next as int, None, path);
        let ghost done = ast::funcs_model(out@);
        if name.as_str().unicode_len() > 0 {
            let f = FunctionDef {
                name,
                return_type,
                params,
                body,
                line: (i + 1) as u32,
                method_id: pending,
                source_path: source_path.to_owned(),
            };
            proof {
                ast::lemma_funcs_push(out@, f);
                assert(f.model() == function_at(all, i as int, rest@, pending, path).0);
                assert(done + (seq![f.model()] + others) =~= done.push(f.model()) + others);
            }
            out.push(f);
        }
        pending = None;
        i = next;
    }
    assert(ast::funcs_model(out@) + Seq::empty() =~= ast::funcs_model(out@));
    out
}

/// Every function knows the file that it was defined in.
pub proof fn law_functions_know_their_file(source: Seq<char>, path: Seq<char>)
    ensures
        forall|i: int|
            0 <= i < functions_of(source, path).len() ==> (#[trigger] functions_of(
                source,
                path,
            )[i]).source_path == path,
{
    lemma_functions_file(text::lines_of(source), 0, None, path);
}

proof fn lemma_functions_file(
    lines: Seq<Seq<char>>,
    i: int,
    pending: Option<i64>,
    path: Seq<char>,
)
    ensures
        forall|k: int|
            0 <= k < functions_from(lines, i, pending, path).len() ==> (#[trigger] functions_from(
                lines,
                i,
                pending,
                path,
            )[k]).source_path == path,
    decreases parser::left(lines, i),
{
    let t = parser::line_at(lines, i);
    if i < lines.len() {
        if t.len() > 0 && t[0] == '@' {
            let next = match method_id_of(t) {
                Some(n) => Some(n),
                None => pending,
            };
            lemma_functions_file(lines, i + 1, next, path);
        } else {
            match text::after(t, "fun "@) {
                None => {
                    lemma_functions_file(lines, i + 1, pending, path);
                },
                Some(rest) => {
                    let (f, end) = function_at(lines, i, rest, pending, path);
                    let next = parser::next_line(lines, parser::past(i, end));
                    lemma_functions_file(lines, next, None, path);
                },
            }
        }
    }
}

} // verus!
