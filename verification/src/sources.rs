//! Declarations as they are written, and that reading them gives back what was
//! written.

use vstd::prelude::*;

use crate::ast::Func;
use crate::blocks;
use crate::blocks::Node;
use crate::chars;
use crate::directives;
use crate::functions;
use crate::grammar;
use crate::log_text;
use crate::numeral;
use crate::statement;
use crate::syntax;
use crate::text;

verus! {

/// The character does not stand in the text.
pub open spec fn lacks(s: Seq<char>, c: char) -> bool {
    forall|i: int| 0 <= i < s.len() ==> #[trigger] s[i] != c
}

pub proof fn lemma_find(a: Seq<char>, c: char, b: Seq<char>)
    requires
        lacks(a, c),
    ensures
        text::find(a + seq![c] + b, c) == Some(a.len() as int),
        (a + seq![c] + b).take(a.len() as int) == a,
        (a + seq![c] + b).skip(a.len() as int + 1) == b,
        functions::until_char(a + seq![c] + b, c) == a,
{
    let s = a + seq![c] + b;
    let q = text::is_at(s, c);
    assert(s[a.len() as int] == c);
    assert forall|j: int| 0 <= j < a.len() implies !#[trigger] q(j) by {
        assert(s[j] == a[j]);
    }
    text::lemma_first_is(0, s.len() as int, q, a.len() as int);
    assert(s.take(a.len() as int) =~= a);
    assert(s.skip(a.len() as int + 1) =~= b);
}

pub proof fn lemma_find_none(s: Seq<char>, c: char)
    requires
        lacks(s, c),
    ensures
        text::find(s, c) is None,
        text::split_on(s, c) == seq![s],
        functions::until_char(s, c) == s,
{
    let q = text::is_at(s, c);
    assert forall|j: int| 0 <= j < s.len() implies !#[trigger] q(j) by {}
    text::lemma_first_none(0, s.len() as int, q);
}

/// A name lacks everything that is neither a letter nor a digit nor an
/// underscore.
pub proof fn lemma_name_lacks(name: Seq<char>, c: char)
    requires
        grammar::plain_name(name),
        chars::ascii(c),
        !chars::ascii_word(c),
    ensures
        lacks(name, c),
        name.len() > 0,
        !text::white(name[0]),
        !text::white(name.last()),
{
    syntax::lemma_name_is_plain(name);
    text::lemma_trimmed_ends(name);
}

/// A type as it is written: not blank, without white space around it, and
/// without commas, colons and the brackets of a header.
pub open spec fn plain_type(s: Seq<char>) -> bool {
    &&& s.len() > 0
    &&& text::trimmed(s) == s
    &&& lacks(s, ',') && lacks(s, ':') && lacks(s, '(') && lacks(s, ')') && lacks(s, '{')
}

/// A parameter as it is written.
pub open spec fn param_text(p: (Seq<char>, Seq<char>)) -> Seq<char> {
    p.0 + ": "@ + p.1
}

/// Parameters as they are written.
pub open spec fn params_text(params: Seq<(Seq<char>, Seq<char>)>) -> Seq<char>
    decreases params.len(),
{
    if params.len() == 0 {
        Seq::empty()
    } else if params.len() == 1 {
        param_text(params[0])
    } else {
        param_text(params[0]) + ", "@ + params_text(params.skip(1))
    }
}

/// The parameters have names and types.
pub open spec fn params_fit(params: Seq<(Seq<char>, Seq<char>)>) -> bool {
    forall|k: int|
        0 <= k < params.len() ==> grammar::plain_name((#[trigger] params[k]).0) && plain_type(
            params[k].1,
        )
}

proof fn lemma_param(p: (Seq<char>, Seq<char>))
    requires
        grammar::plain_name(p.0),
        plain_type(p.1),
    ensures
        ({
            let s = param_text(p);
            &&& s.len() > 0
            &&& !text::white(s[0])
            &&& !text::white(s.last())
            &&& lacks(s, ',') && lacks(s, '(') && lacks(s, ')')
            &&& functions::param_of(s) == Some(p)
            &&& functions::param_of(seq![' '] + s) == Some(p)
        }),
{
    reveal_strlit(": ");
    let s = param_text(p);
    lemma_name_lacks(p.0, ':');
    lemma_name_lacks(p.0, ',');
    lemma_name_lacks(p.0, '(');
    lemma_name_lacks(p.0, ')');
    text::lemma_trimmed_ends(p.1);
    assert(s =~= p.0 + seq![':'] + (seq![' '] + p.1));
    lemma_find(p.0, ':', seq![' '] + p.1);
    assert(s[0] == p.0[0]);
    assert(s.last() == p.1.last());
    text::lemma_trimmed_already(s);
    text::lemma_blank_before(s);
    text::lemma_blank_before(p.1);
    assert forall|i: int| 0 <= i < s.len() implies #[trigger] s[i] != ',' && s[i] != '(' && s[i]
        != ')' by {
        if i < p.0.len() {
            assert(s[i] == p.0[i]);
        } else if i >= p.0.len() + 2 {
            assert(s[i] == p.1[i - p.0.len() - 2]);
        }
    }
}

/// The pieces are these parameters, one by one.
spec fn pieces_are(parts: Seq<Seq<char>>, params: Seq<(Seq<char>, Seq<char>)>) -> bool {
    parts.len() == params.len() && forall|k: int|
        0 <= k < parts.len() ==> #[trigger] functions::param_of(parts[k]) == Some(params[k])
}

proof fn lemma_params_rest(params: Seq<(Seq<char>, Seq<char>)>)
    requires
        params.len() > 0,
        params_fit(params),
    ensures
        params_fit(params.skip(1)),
        grammar::plain_name(params[0].0),
        plain_type(params[0].1),
{
    let rest = params.skip(1);
    assert forall|k: int| 0 <= k < rest.len() implies grammar::plain_name((#[trigger] rest[k]).0)
        && plain_type(rest[k].1) by {
        assert(rest[k] == params[k + 1]);
    }
}

/// The pieces of a list of parameters, the first perhaps behind a blank.
#[verifier::spinoff_prover]
#[verifier::rlimit(40)]
proof fn lemma_param_pieces(params: Seq<(Seq<char>, Seq<char>)>, front: Seq<char>)
    requires
        params.len() > 0,
        params_fit(params),
        front == Seq::<char>::empty() || front == seq![' '],
    ensures
        pieces_are(text::split_on(front + params_text(params), ','), params),
    decreases params.len(),
{
    reveal_strlit(", ");
    let p = params[0];
    let first = param_text(p);
    let piece = front + first;
    lemma_params_rest(params);
    lemma_param(p);
    assert(Seq::<char>::empty() + first =~= first);
    assert(lacks(piece, ',')) by {
        assert forall|i: int| 0 <= i < piece.len() implies #[trigger] piece[i] != ',' by {
            if i >= front.len() {
                assert(piece[i] == first[i - front.len()]);
            }
        }
    }
    if params.len() == 1 {
        lemma_find_none(piece, ',');
    } else {
        let rest = params.skip(1);
        let behind = seq![' '] + params_text(rest);
        lemma_param_pieces(rest, seq![' ']);
        assert(front + params_text(params) =~= piece + seq![','] + behind);
        lemma_find(piece, ',', behind);
        let pieces = text::split_on(behind, ',');
        let parts = text::split_on(front + params_text(params), ',');
        assert(parts =~= seq![piece] + pieces);
        assert forall|k: int| 0 <= k < parts.len() implies #[trigger] functions::param_of(parts[k])
            == Some(params[k]) by {
            if k > 0 {
                assert(parts[k] == pieces[k - 1]);
                assert(functions::param_of(pieces[k - 1]) == Some(rest[k - 1]));
            }
        }
    }
}

proof fn lemma_params_ends(params: Seq<(Seq<char>, Seq<char>)>)
    requires
        params.len() > 0,
        params_fit(params),
    ensures
        params_text(params).len() > 0,
        !text::white(params_text(params)[0]),
        !text::white(params_text(params).last()),
        lacks(params_text(params), '('),
        lacks(params_text(params), ')'),
    decreases params.len(),
{
    reveal_strlit(", ");
    let first = param_text(params[0]);
    let s = params_text(params);
    lemma_params_rest(params);
    lemma_param(params[0]);
    if params.len() > 1 {
        let rest = params.skip(1);
        let tail = params_text(rest);
        lemma_params_ends(rest);
        assert(s[0] == first[0]);
        assert(s.last() == tail.last());
        assert forall|i: int| 0 <= i < s.len() implies #[trigger] s[i] != '(' && s[i] != ')' by {
            if i < first.len() {
                assert(s[i] == first[i]);
            } else if i >= first.len() + 2 {
                assert(s[i] == tail[i - first.len() - 2]);
            }
        }
    }
}

proof fn lemma_params_among(parts: Seq<Seq<char>>, params: Seq<(Seq<char>, Seq<char>)>)
    requires
        pieces_are(parts, params),
    ensures
        functions::params_among(parts) == params,
    decreases parts.len(),
{
    if parts.len() > 0 {
        let less = params.drop_last();
        assert forall|k: int| 0 <= k < parts.drop_last().len() implies #[trigger]
            functions::param_of(parts.drop_last()[k]) == Some(less[k]) by {
            assert(functions::param_of(parts[k]) == Some(params[k]));
        }
        lemma_params_among(parts.drop_last(), less);
        assert(functions::param_of(parts[parts.len() - 1]) == Some(params.last()));
        assert(less.push(params.last()) =~= params);
    } else {
        assert(params =~= Seq::empty());
    }
}

/// The parameters of a list are read as they were written, in order.
pub proof fn law_parameters_are_read_back(params: Seq<(Seq<char>, Seq<char>)>)
    requires
        params_fit(params),
    ensures
        functions::params_of(params_text(params)) == params,
{
    let s = params_text(params);
    if params.len() > 0 {
        lemma_params_ends(params);
        lemma_param_pieces(params, Seq::empty());
        text::lemma_trimmed_already(s);
        assert(Seq::<char>::empty() + s =~= s);
        lemma_params_among(text::split_on(s, ','), params);
    } else {
        text::lemma_trimmed_already(s);
        assert(params =~= Seq::empty());
    }
}

/// The declared result of a function as it is written.
pub open spec fn result_text(ty: Option<Seq<char>>) -> Seq<char> {
    match ty {
        Some(t) => ": "@ + t + " {"@,
        None => " {"@,
    }
}

/// The header of a function behind its keyword and receiver.
pub open spec fn header_text(
    name: Seq<char>,
    params: Seq<(Seq<char>, Seq<char>)>,
    ty: Option<Seq<char>>,
) -> Seq<char> {
    name + "("@ + params_text(params) + ")"@ + result_text(ty)
}

/// The header of a function is read as the name, the parameters and the type of
/// the result that it was written of; a method has the name of its type before
/// its own, and its receiver as the first parameter.
#[verifier::spinoff_prover]
#[verifier::rlimit(40)]
pub proof fn law_function_header_is_read_back(
    name: Seq<char>,
    params: Seq<(Seq<char>, Seq<char>)>,
    ty: Option<Seq<char>>,
    receiver: Seq<char>,
)
    requires
        grammar::plain_name(name),
        params_fit(params),
        ty is Some ==> plain_type(ty->0),
    ensures
        ({
            let s = header_text(name, params, ty);
            &&& functions::function_name(None, s) == name
            &&& functions::function_name(Some(receiver), s) == receiver + "."@ + name
            &&& functions::function_params(None, s) == params
            &&& functions::function_params(Some(receiver), s) == seq![("self"@, receiver)] + params
            &&& functions::return_type_of(s) == ty
        }),
{
    reveal_strlit("(");
    reveal_strlit(")");
    reveal_strlit(": ");
    reveal_strlit(":");
    reveal_strlit(" {");
    let inner = params_text(params);
    let result = result_text(ty);
    let s = header_text(name, params, ty);
    lemma_name_lacks(name, '(');
    lemma_name_lacks(name, ')');
    lemma_name_lacks(name, '>');
    if params.len() > 0 {
        lemma_params_ends(params);
    }
    assert(s =~= name + seq!['('] + (inner + seq![')'] + result));
    lemma_find(name, '(', inner + seq![')'] + result);
    let front = name + seq!['('] + inner;
    assert(lacks(front, ')')) by {
        assert forall|i: int| 0 <= i < front.len() implies #[trigger] front[i] != ')' by {
            if i < name.len() {
                assert(front[i] == name[i]);
            } else if i > name.len() {
                assert(front[i] == inner[i - name.len() - 1]);
            }
        }
    }
    assert(s =~= front + seq![')'] + result);
    lemma_find(front, ')', result);
    text::lemma_trimmed_already(name);
    assert(name.last() == name[name.len() - 1]);
    assert(syntax::bare_name(name) == name);
    law_parameters_are_read_back(params);
    assert(s.subrange(name.len() as int + 1, front.len() as int) =~= inner);
    match ty {
        Some(t) => {
            text::lemma_trimmed_ends(t);
            let behind = seq![' '] + (t + seq![' ', '{']);
            assert(result =~= ":"@ + behind);
            assert(result[0] == ':');
            assert(result.last() == '{');
            text::lemma_trimmed_already(result);
            text::lemma_after(":"@, behind);
            let plain = t + seq![' ', '{'];
            assert(plain[0] == t[0]);
            assert(plain.last() == '{');
            text::lemma_blank_before(plain);
            let padded = t + seq![' '];
            assert(plain =~= padded + seq!['{'] + Seq::empty());
            assert(lacks(padded, '{')) by {
                assert forall|i: int| 0 <= i < padded.len() implies #[trigger] padded[i] != '{' by {
                    if i < t.len() {
                        assert(padded[i] == t[i]);
                    }
                }
            }
            lemma_find(padded, '{', Seq::empty());
            text::lemma_blank_behind(t);
        },
        None => {
            assert(result =~= seq![' '] + seq!['{']);
            text::lemma_blank_before(seq!['{']);
            if ":"@.is_prefix_of(seq!['{']) {
                assert(seq!['{'].subrange(0, 1)[0] == '{');
                assert(":"@[0] == ':');
            }
        },
    }
}

/// A receiver is read as its type, and what follows it is the header.
pub proof fn law_receiver_is_read_back(ty: Seq<char>, rest: Seq<char>)
    requires
        grammar::plain_name(ty),
        rest.len() > 0,
        !text::white(rest[0]),
        rest[0] != '(',
        forall|i: int| 0 <= i < ty.len() ==> !text::white(#[trigger] ty[i]),
    ensures
        functions::receiver_of("(self "@ + ty + ") "@ + rest) == (Some(ty), rest),
        functions::receiver_of(rest) == (None::<Seq<char>>, rest),
{
    reveal_strlit("(self ");
    reveal_strlit("self");
    reveal_strlit("(");
    reveal_strlit(") ");
    let s = "(self "@ + ty + ") "@ + rest;
    let words = "self"@ + seq![' '] + ty;
    let inner = words + seq![')'] + (seq![' '] + rest);
    assert(s =~= "("@ + inner);
    assert(s[0] == '(');
    text::lemma_after("("@, inner);
    lemma_name_lacks(ty, ')');
    assert(lacks(words, ')')) by {
        assert forall|i: int| 0 <= i < words.len() implies #[trigger] words[i] != ')' by {
            if i >= 5 {
                assert(words[i] == ty[i - 5]);
            }
        }
    }
    lemma_find(words, ')', seq![' '] + rest);
    assert(words[0] == 's');
    assert(words.last() == ty.last());
    text::lemma_trimmed_already(words);
    grammar::lemma_two_words("self"@, ty);
    assert((seq![' '] + rest).skip(1) =~= rest);
    reveal_with_fuel(text::ltrim, 2);
    if "("@.is_prefix_of(rest) {
        assert(rest.subrange(0, 1)[0] == rest[0]);
    }
}

/// A function is read as it was written: behind its header come the statements
/// of its body and the closing brace, and reading goes on behind that. It has
/// the number of its line, the file, and the id of the attributes before it.
pub proof fn law_function_is_read_back(
    lines: Seq<Seq<char>>,
    i: int,
    rest: Seq<char>,
    body: Seq<Node>,
    pending: Option<i64>,
    path: Seq<char>,
)
    requires
        blocks::block_fits(body),
        rest.len() > 0,
        !text::white(rest.last()),
        blocks::stand_at(
            lines,
            i,
            seq!["fun "@ + rest] + (blocks::block_lines(body) + seq!["}"@]),
        ),
        functions::function_name(
            functions::receiver_of(rest).0,
            functions::receiver_of(rest).1,
        ).len() > 0,
    ensures
        ({
            let (receiver, tail) = functions::receiver_of(rest);
            functions::functions_from(lines, i, pending, path) == seq![
                Func {
                    name: functions::function_name(receiver, tail),
                    return_type: functions::return_type_of(tail),
                    params: functions::function_params(receiver, tail),
                    body: blocks::block_meaning(body, i + 1),
                    line: (i + 1) as u32,
                    method_id: pending,
                    source_path: path,
                },
            ] + functions::functions_from(
                lines,
                i + blocks::block_lines(body).len() + 2,
                None,
                path,
            )
        }),
{
    reveal_strlit("fun ");
    reveal_strlit("}");
    let head = "fun "@ + rest;
    let inner = blocks::block_lines(body);
    blocks::lemma_first_line(lines, i, head, inner + seq!["}"@]);
    blocks::lemma_stand_parts(lines, i + 1, inner, seq!["}"@]);
    let last = i + 1 + inner.len();
    assert(seq!["}"@][0] == "}"@);
    assert(text::trimmed(lines[last + 0]) == "}"@);
    blocks::law_block_is_read_back(lines, body, i + 1);
    assert(head[0] == 'f');
    text::lemma_after("fun "@, rest);
}

/// A line that begins no function and no attribute changes nothing, and an
/// attribute with a method id gives it to the next function.
#[verifier::spinoff_prover]
#[verifier::rlimit(40)]
pub proof fn law_other_lines_define_nothing(
    lines: Seq<Seq<char>>,
    i: int,
    pending: Option<i64>,
    path: Seq<char>,
    n: i64,
)
    requires
        0 <= i < lines.len(),
    ensures
        ({
            let t = text::trimmed(lines[i]);
            let next = |id: Option<i64>| functions::functions_from(lines, i + 1, id, path);
            let here = functions::functions_from(lines, i, pending, path);
            &&& text::after(t, "fun "@) is None && !(t.len() > 0 && t[0] == '@') ==> here == next(
                pending,
            )
            &&& t == "@method_id("@ + numeral::int_text(n as int) + ")"@ ==> here == next(Some(n))
            &&& t.len() > 0 && t[0] == '@' && lacks(t, '(') ==> here == next(pending)
        }),
{
    reveal_strlit("@method_id(");
    reveal_strlit("method_id");
    reveal_strlit("@");
    reveal_strlit(")");
    let t = text::trimmed(lines[i]);
    let digits = numeral::int_text(n as int);
    if t == "@method_id("@ + digits + ")"@ {
        numeral::law_decimal_round_trip(n as int, i64::MIN as int, i64::MAX as int);
        numeral::lemma_int_text_ends(n as int);
        text::lemma_trimmed_already(digits);
        let args = digits + seq![')'] + Seq::empty();
        let rest = "method_id"@ + seq!['('] + args;
        assert(t =~= "@"@ + rest);
        text::lemma_after("@"@, rest);
        assert(lacks("method_id"@, '('));
        lemma_find("method_id"@, '(', args);
        assert(lacks(digits, ')')) by {
            if n < 0 {
                numeral::lemma_nat_text_digits((-n) as nat);
            } else {
                numeral::lemma_nat_text_digits(n as nat);
            }
        }
        lemma_find(digits, ')', Seq::empty());
        text::lemma_trimmed_already("method_id"@);
        assert(t[0] == '@');
    }
    if t.len() > 0 && t[0] == '@' && lacks(t, '(') {
        let rest = t.skip(1);
        assert(t =~= "@"@ + rest);
        text::lemma_after("@"@, rest);
        assert forall|k: int| 0 <= k < rest.len() implies #[trigger] rest[k] != '(' by {
            assert(rest[k] == t[k + 1]);
        }
        lemma_find_none(rest, '(');
    }
}

/// The imports of a source are those of its lines, in order; a line that names
/// a path in quotes imports it, and a line that does not begin so imports
/// nothing.
pub proof fn law_imports_are_those_of_the_lines(
    a: Seq<Seq<char>>,
    line: Seq<char>,
    path: Seq<char>,
)
    requires
        path.len() > 0,
        lacks(path, '"'),
    ensures
        directives::imports_in(Seq::empty()) == Seq::<Seq<char>>::empty(),
        directives::imports_in(a.push("import \""@ + path + "\";"@)) == directives::imports_in(
            a,
        ).push(path),
        text::after(text::trimmed(line), "import"@) is None ==> directives::imports_in(a.push(line))
            == directives::imports_in(a),
{
    reveal_strlit("import \"");
    reveal_strlit("import");
    reveal_strlit("\"");
    reveal_strlit("\";");
    let s = "import \""@ + path + "\";"@;
    let quoted = path + seq!['"'] + seq![';'];
    let open = "\""@ + quoted;
    let rest = seq![' '] + open;
    assert(s =~= "import"@ + rest);
    assert(s[0] == 'i');
    assert(s.last() == ';');
    text::lemma_trimmed_already(s);
    text::lemma_after("import"@, rest);
    assert(open[0] == '"');
    assert(open.last() == ';');
    text::lemma_blank_before(open);
    text::lemma_after("\""@, quoted);
    lemma_find(path, '"', seq![';']);
    assert(a.push(s).drop_last() =~= a);
    assert(a.push(line).drop_last() =~= a);
}

/// Names with a bar between them.
pub open spec fn union_text(names: Seq<Seq<char>>) -> Seq<char>
    decreases names.len(),
{
    if names.len() == 0 {
        Seq::empty()
    } else if names.len() == 1 {
        names[0]
    } else {
        names[0] + " | "@ + union_text(names.skip(1))
    }
}

proof fn lemma_constructor(name: Seq<char>, front: Seq<char>, back: Seq<char>)
    requires
        grammar::plain_name(name),
        front == Seq::<char>::empty() || front == seq![' '],
        back == Seq::<char>::empty() || back == seq![' '],
    ensures
        directives::constructor_of(front + name + back) == Some(name),
{
    lemma_name_lacks(name, '(');
    let s = front + name + back;
    text::lemma_trimmed_already(name);
    lemma_find_none(name, '(');
    syntax::lemma_name_is_plain(name);
    assert(text::trimmed(s) == name) by {
        text::lemma_blank_before(name);
        text::lemma_blank_behind(name);
        if front.len() == 0 {
            assert(s =~= name + back);
            if back.len() == 0 {
                assert(s =~= name);
            }
        } else {
            let t = name + back;
            assert(s =~= seq![' '] + t);
            assert(s.skip(1) =~= t);
            assert(t[0] == name[0]);
            reveal_with_fuel(text::ltrim, 2);
            assert(text::ltrim(s) == t);
            assert(text::ltrim(t) == t);
            if back.len() == 0 {
                assert(t =~= name);
            }
        }
    }
}

/// The pieces name these constructors, one by one.
spec fn pieces_name(parts: Seq<Seq<char>>, names: Seq<Seq<char>>) -> bool {
    parts.len() == names.len() && forall|k: int|
        0 <= k < parts.len() ==> #[trigger] directives::constructor_of(parts[k]) == Some(names[k])
}

#[verifier::spinoff_prover]
#[verifier::rlimit(40)]
proof fn lemma_pieces(names: Seq<Seq<char>>, front: Seq<char>)
    requires
        names.len() > 0,
        forall|k: int| 0 <= k < names.len() ==> grammar::plain_name(#[trigger] names[k]),
        front == Seq::<char>::empty() || front == seq![' '],
    ensures
        pieces_name(text::split_on(front + union_text(names), '|'), names),
    decreases names.len(),
{
    reveal_strlit(" | ");
    let name = names[0];
    let s = union_text(names);
    lemma_name_lacks(name, '|');
    let none = Seq::<char>::empty();
    if names.len() == 1 {
        let whole = front + s;
        assert(lacks(whole, '|')) by {
            assert forall|i: int| 0 <= i < whole.len() implies #[trigger] whole[i] != '|' by {
                if i >= front.len() {
                    assert(whole[i] == name[i - front.len()]);
                }
            }
        }
        lemma_find_none(whole, '|');
        lemma_constructor(name, front, none);
        assert(front + name + none =~= whole);
    } else {
        let rest = names.skip(1);
        assert forall|k: int| 0 <= k < rest.len() implies grammar::plain_name(#[trigger] rest[k]) by {
            assert(rest[k] == names[k + 1]);
        }
        lemma_pieces(rest, seq![' ']);
        let tail = union_text(rest);
        let piece = front + name + seq![' '];
        assert(front + s =~= piece + seq!['|'] + (seq![' '] + tail));
        assert(lacks(piece, '|')) by {
            assert forall|i: int| 0 <= i < piece.len() implies #[trigger] piece[i] != '|' by {
                if front.len() <= i < front.len() + name.len() {
                    assert(piece[i] == name[i - front.len()]);
                }
            }
        }
        lemma_find(piece, '|', seq![' '] + tail);
        let pieces = text::split_on(seq![' '] + tail, '|');
        let parts = text::split_on(front + s, '|');
        assert(parts =~= seq![piece] + pieces);
        lemma_constructor(name, front, seq![' ']);
        assert forall|k: int| 0 <= k < parts.len() implies #[trigger] directives::constructor_of(
            parts[k],
        ) == Some(names[k]) by {
            if k > 0 {
                assert(parts[k] == pieces[k - 1]);
                assert(directives::constructor_of(pieces[k - 1]) == Some(rest[k - 1]));
            }
        }
    }
}

proof fn lemma_union_ends(names: Seq<Seq<char>>)
    requires
        names.len() > 0,
        forall|k: int| 0 <= k < names.len() ==> grammar::plain_name(#[trigger] names[k]),
    ensures
        union_text(names).len() > 0,
        !text::white(union_text(names)[0]),
        !text::white(union_text(names).last()),
        union_text(names).last() != ';',
    decreases names.len(),
{
    reveal_strlit(" | ");
    let name = names[0];
    lemma_name_lacks(name, ';');
    assert(name.last() == name[name.len() - 1]);
    if names.len() > 1 {
        let rest = names.skip(1);
        assert forall|k: int| 0 <= k < rest.len() implies grammar::plain_name(#[trigger] rest[k]) by {
            assert(rest[k] == names[k + 1]);
        }
        lemma_union_ends(rest);
        assert(union_text(names)[0] == name[0]);
        assert(union_text(names).last() == union_text(rest).last());
    }
}

proof fn lemma_named(parts: Seq<Seq<char>>, names: Seq<Seq<char>>)
    requires
        pieces_name(parts, names),
    ensures
        directives::constructors_among(parts) == names.to_set(),
    decreases parts.len(),
{
    if parts.len() == 0 {
        assert(names.to_set() =~= Set::empty());
    } else {
        let less = names.drop_last();
        let name = names.last();
        assert forall|k: int| 0 <= k < parts.drop_last().len() implies #[trigger]
            directives::constructor_of(parts.drop_last()[k]) == Some(less[k]) by {
            assert(directives::constructor_of(parts[k]) == Some(names[k]));
        }
        lemma_named(parts.drop_last(), less);
        assert(directives::constructor_of(parts[parts.len() - 1]) == Some(name));
        assert forall|x: Seq<char>| names.to_set().contains(x) == less.to_set().insert(
            name,
        ).contains(x) by {
            if names.contains(x) {
                let k = names.index_of(x);
                if k < less.len() {
                    assert(less[k] == x);
                }
            }
            if less.contains(x) {
                let k = less.index_of(x);
                assert(names[k] == x);
            }
            if x == name {
                assert(names[names.len() - 1] == x);
            }
        }
        assert(names.to_set() =~= less.to_set().insert(name));
    }
}

/// The constructors of a source are those of its unions: a declaration of two
/// or more alternatives has exactly these as constructors, and a declaration of
/// one alternative, as every other line, has none.
#[verifier::spinoff_prover]
#[verifier::rlimit(40)]
pub proof fn law_constructors_are_those_of_the_unions(
    lines: Seq<Seq<char>>,
    line: Seq<char>,
    name: Seq<char>,
    names: Seq<Seq<char>>,
)
    requires
        grammar::plain_name(name),
        names.len() > 0,
        forall|k: int| 0 <= k < names.len() ==> grammar::plain_name(#[trigger] names[k]),
    ensures
        directives::constructors_in(Seq::empty()) == Set::<Seq<char>>::empty(),
        names.len() >= 2 ==> directives::constructors_in(
            lines.push("type "@ + name + " = "@ + union_text(names) + ";"@),
        ) == directives::constructors_in(lines).union(names.to_set()),
        names.len() == 1 ==> directives::constructors_in(
            lines.push("type "@ + name + " = "@ + union_text(names) + ";"@),
        ) == directives::constructors_in(lines),
        text::after(text::trimmed(line), "type "@) is None ==> directives::constructors_in(
            lines.push(line),
        ) == directives::constructors_in(lines),
{
    reveal_strlit("type ");
    reveal_strlit(" = ");
    reveal_strlit(";");
    let all = union_text(names);
    let s = "type "@ + name + " = "@ + all + ";"@;
    lemma_name_lacks(name, '=');
    lemma_union_ends(names);
    lemma_pieces(names, Seq::empty());
    lemma_named(text::split_on(Seq::<char>::empty() + all, '|'), names);
    let left = name + seq![' '];
    let right = seq![' '] + all + ";"@;
    let rest = left + seq!['='] + right;
    assert(s =~= "type "@ + rest);
    assert(s[0] == 't');
    assert(s.last() == ';');
    text::lemma_trimmed_already(s);
    text::lemma_after("type "@, rest);
    assert(lacks(left, '=')) by {
        assert forall|i: int| 0 <= i < left.len() implies #[trigger] left[i] != '=' by {
            if i < name.len() {
                assert(left[i] == name[i]);
            }
        }
    }
    lemma_find(left, '=', right);
    lemma_bare(all);
    assert(Seq::<char>::empty() + all =~= all);
    assert(lines.push(s).drop_last() =~= lines);
    assert(lines.push(line).drop_last() =~= lines);
    let none = Seq::<Seq<char>>::empty();
    assert(directives::constructors_among(none) == Set::<Seq<char>>::empty());
    assert(directives::constructors_in(lines).union(Set::empty())
        =~= directives::constructors_in(lines));
}

/// The semicolon behind a text and the blank before it are cut off.
pub proof fn lemma_bare(s: Seq<char>)
    requires
        s.len() > 0,
        !text::white(s[0]),
        !text::white(s.last()),
        s.last() != ';',
    ensures
        statement::bare(seq![' '] + s + ";"@) == s,
        statement::bare(s + ";"@) == s,
{
    reveal_strlit(";");
    let t = s + ";"@;
    assert(t[0] == s[0]);
    assert(t.last() == ';');
    text::lemma_trimmed_already(t);
    text::lemma_blank_before(t);
    assert(seq![' '] + s + ";"@ =~= seq![' '] + t);
    assert(t.drop_last() =~= s);
    reveal_with_fuel(text::rtrim_char, 2);
    text::lemma_trimmed_already(s);
}

/// Codes with a blank between them.
pub open spec fn codes_text(codes: Seq<i64>) -> Seq<char>
    decreases codes.len(),
{
    if codes.len() == 0 {
        Seq::empty()
    } else if codes.len() == 1 {
        numeral::int_text(codes[0] as int)
    } else {
        numeral::int_text(codes[0] as int) + " "@ + codes_text(codes.skip(1))
    }
}

/// The rendering of an integer is a word of signs and digits.
proof fn lemma_code_word(n: i64)
    ensures
        ({
            let w = numeral::int_text(n as int);
            &&& w.len() > 0
            &&& forall|i: int| 0 <= i < w.len() ==> !text::white(#[trigger] w[i])
            &&& lacks(w, ',')
            &&& directives::without_punctuation(w) == w
            &&& directives::op_code_of(w) == Some(n)
        }),
{
    reveal_strlit("0x");
    reveal_strlit("0X");
    let w = numeral::int_text(n as int);
    numeral::law_decimal_round_trip(n as int, i64::MIN as int, i64::MAX as int);
    numeral::lemma_int_text_ends(n as int);
    if n < 0 {
        numeral::lemma_nat_text_digits((-n) as nat);
    } else {
        numeral::lemma_nat_text_digits(n as nat);
    }
    assert forall|i: int| 0 <= i < w.len() implies '0' <= #[trigger] w[i] <= '9' || w[i] == '-' by {
        if n < 0 && i > 0 {
            assert(w[i] == numeral::nat_text((-n) as nat)[i - 1]);
        }
    }
    assert forall|i: int| 0 <= i < w.len() implies !text::white(#[trigger] w[i]) && w[i] != ',' by {
        assert('0' <= w[i] <= '9' || w[i] == '-');
        lemma_digit_is_black(w[i]);
    }
    assert('0' <= w[w.len() - 1] <= '9' || w[w.len() - 1] == '-');
    if "0x"@.is_prefix_of(w) {
        assert(w.subrange(0, 2)[1] == w[1]);
        assert('0' <= w[1] <= '9' || w[1] == '-');
    }
    if "0X"@.is_prefix_of(w) {
        assert(w.subrange(0, 2)[1] == w[1]);
        assert('0' <= w[1] <= '9' || w[1] == '-');
    }
}

proof fn lemma_digit_is_black(c: char)
    requires
        '0' <= c <= '9' || c == '-',
    ensures
        !text::white(c),
        c != ',',
{
    assert(c <= 0x10_ffff);
    assert(c as u32 == c as int);
}

/// The words of a list of codes.
pub open spec fn code_words(codes: Seq<i64>) -> Seq<Seq<char>> {
    codes.map_values(|n: i64| numeral::int_text(n as int))
}

proof fn lemma_code_words(codes: Seq<i64>)
    ensures
        text::words_of(codes_text(codes)) == code_words(codes),
        lacks(codes_text(codes), ','),
        codes.len() > 0 ==> codes_text(codes).len() > 0 && !text::white(codes_text(codes)[0])
            && !text::white(codes_text(codes).last()),
    decreases codes.len(),
{
    reveal_strlit(" ");
    let s = codes_text(codes);
    if codes.len() == 1 {
        let w = numeral::int_text(codes[0] as int);
        lemma_code_word(codes[0]);
        log_text::lemma_first_word(w, Seq::empty());
        assert(code_words(codes) =~= seq![w]);
    } else if codes.len() > 1 {
        let rest = codes.skip(1);
        let w = numeral::int_text(codes[0] as int);
        let tail = codes_text(rest);
        lemma_code_word(codes[0]);
        lemma_code_words(rest);
        assert(s =~= w + seq![' '] + tail);
        log_text::lemma_first_word(w, tail);
        assert(code_words(codes) =~= seq![w] + code_words(rest));
        assert(s[0] == w[0]);
        assert(s.last() == tail.last());
        assert forall|i: int| 0 <= i < s.len() implies #[trigger] s[i] != ',' by {
            if i < w.len() {
                assert(s[i] == w[i]);
            } else if i > w.len() {
                assert(s[i] == tail[i - w.len() - 1]);
            }
        }
    } else {
        assert(code_words(codes) =~= Seq::empty());
    }
}

proof fn lemma_codes(codes: Seq<i64>)
    ensures
        directives::op_codes_of(code_words(codes)) == Some(codes),
    decreases codes.len(),
{
    if codes.len() > 0 {
        let less = codes.drop_last();
        assert(code_words(codes).drop_last() =~= code_words(less));
        lemma_codes(less);
        lemma_code_word(codes.last());
        assert(code_words(codes).last() == numeral::int_text(codes.last() as int));
        assert(less.push(codes.last()) =~= codes);
    } else {
        assert(code_words(codes) =~= Seq::empty());
        assert(codes =~= Seq::empty());
    }
}

/// The messages of a source are those of its first directive: it is read as the
/// codes that it was written of, in order, and lines before it that are no
/// directive do not count.
pub proof fn law_messages_are_read_back(
    lines: Seq<Seq<char>>,
    i: int,
    codes: Seq<i64>,
)
    requires
        0 <= i < lines.len(),
        codes.len() > 0,
        lines[i] == "// @recorder:messages "@ + codes_text(codes),
        forall|k: int| 0 <= k < i ==> directives::directive_of(#[trigger] lines[k]) is None,
    ensures
        directives::messages_in(lines, 0) == Some(codes),
{
    reveal_strlit("// @recorder:messages ");
    reveal_strlit("//");
    reveal_strlit("@recorder:messages");
    let all = codes_text(codes);
    let line = lines[i];
    let list = seq![' '] + all;
    let mark = "@recorder:messages"@ + list;
    lemma_code_words(codes);
    lemma_codes(codes);
    assert(line =~= "//"@ + (seq![' '] + mark));
    assert(line[0] == '/');
    text::lemma_after("//"@, seq![' '] + mark);
    assert((seq![' '] + mark).skip(1) =~= mark);
    assert(mark[0] == '@');
    reveal_with_fuel(text::ltrim, 2);
    text::lemma_after("@recorder:messages"@, list);
    text::lemma_blank_before(all);
    assert(directives::commas_as_spaces(all) =~= all);
    assert(directives::directive_of(line) == Some(all));
    lemma_first_directive(lines, 0, i);
}

proof fn lemma_first_directive(lines: Seq<Seq<char>>, k: int, i: int)
    requires
        0 <= k <= i < lines.len(),
        forall|j: int| 0 <= j < i ==> directives::directive_of(#[trigger] lines[j]) is None,
    ensures
        directives::messages_in(lines, k) == directives::messages_in(lines, i),
    decreases i - k,
{
    if k < i {
        lemma_first_directive(lines, k + 1, i);
    }
}

} // verus!
