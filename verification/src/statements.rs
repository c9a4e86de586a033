//! Statements and arms as they are written, and that reading them gives back
//! what was written.

use vstd::prelude::*;

use crate::ast::{Arm, GateMode, Stmt};
use crate::blocks;
use crate::brackets;
use crate::grammar;
use crate::sources;
use crate::statement;
use crate::syntax;
use crate::text;

verus! {

/// An operator of a compound assignment.
pub open spec fn compound_sign(o: Seq<char>) -> bool {
    ||| o == seq!['+'] || o == seq!['-'] || o == seq!['*'] || o == seq!['/'] || o == seq!['%']
    ||| o == seq!['&'] || o == seq!['|'] || o == seq!['^']
    ||| o == seq!['<', '<'] || o == seq!['>', '>']
}

/// An operand on the right of a compound assignment.
pub open spec fn operand(e: Seq<char>) -> bool {
    e.len() > 0 && text::trimmed(e) == e && e.last() != ';'
}

/// A text that begins with a name and a blank begins with a keyword and a blank
/// only if the name is the keyword.
proof fn lemma_not_keyword(t: Seq<char>, name: Seq<char>, keyword: Seq<char>)
    requires
        grammar::plain_name(name),
        name.len() < t.len(),
        t.take(name.len() as int) == name,
        t[name.len() as int] == ' ',
        sources::lacks(keyword, ' '),
        name != keyword,
    ensures
        text::after(t, keyword + seq![' ']) is None,
{
    sources::lemma_name_lacks(name, ' ');
    let k = keyword + seq![' '];
    let n = name.len() as int;
    if k.is_prefix_of(t) {
        let front = t.subrange(0, k.len() as int);
        assert(front == k);
        if n < keyword.len() {
            assert(front[n] == t[n]);
            assert(k[n] == keyword[n]);
        } else if n > keyword.len() {
            let m = keyword.len() as int;
            assert(front[m] == t[m]);
            assert(t.take(n)[m] == t[m]);
            assert(name[m] == ' ');
        } else {
            assert forall|i: int| 0 <= i < n implies name[i] == keyword[i] by {
                assert(front[i] == t[i]);
                assert(t.take(n)[i] == t[i]);
            }
            assert(name =~= keyword);
        }
    }
}

/// A text that begins with a name, a blank and no parenthesis is no call of a
/// keyword.
proof fn lemma_not_call(t: Seq<char>, name: Seq<char>, p: Seq<char>)
    requires
        grammar::plain_name(name),
        name.len() + 1 < t.len(),
        t.take(name.len() as int) == name,
        t[name.len() as int] == ' ',
        t[name.len() as int + 1] != '(',
        p.len() > 1,
        p.last() == '(',
        forall|i: int| 0 <= i < p.len() - 2 ==> #[trigger] p[i] != ' ',
    ensures
        text::after(t, p) is None,
{
    sources::lemma_name_lacks(name, '(');
    let m = name.len() as int;
    let k = p.len() - 1;
    if p.is_prefix_of(t) {
        let front = t.subrange(0, p.len() as int);
        assert(front == p);
        assert(t[k] == front[k]);
        if m < k {
            assert(front[m] == t[m]);
            assert(p[m] == ' ');
            assert(m == k - 1);
        } else if m > k {
            assert(t.take(m)[k] == t[k]);
            assert(name[k] == '(');
        }
    }
}

/// A compound assignment is an assignment of the operation on the variable and
/// the operand, which stands in parentheses.
#[verifier::spinoff_prover]
#[verifier::rlimit(40)]
pub proof fn law_compound_assignment_is_read_back(
    name: Seq<char>,
    o: Seq<char>,
    e: Seq<char>,
    line: u32,
)
    requires
        grammar::plain_name(name),
        name != "var"@,
        name != "val"@,
        name != "return"@,
        name != "throw"@,
        compound_sign(o),
        operand(e),
    ensures
        statement::statement_of(name + " "@ + o + "= "@ + e + ";"@, line) == Some(
            Stmt::Assign { name, expr: name + " "@ + o + " ("@ + e + ")"@, line },
        ),
{
    reveal_strlit(" ");
    reveal_strlit("= ");
    reveal_strlit(";");
    reveal_strlit("var");
    reveal_strlit("var ");
    reveal_strlit("val");
    reveal_strlit("val ");
    reveal_strlit("return");
    reveal_strlit("return ");
    reveal_strlit("throw");
    reveal_strlit("throw ");
    reveal_strlit("throwIf(");
    reveal_strlit("throwIf (");
    reveal_strlit("throwUnless(");
    reveal_strlit("throwUnless (");
    let t = name + " "@ + o + "= "@ + e + ";"@;
    let n = name.len() as int;
    sources::lemma_name_lacks(name, '=');
    text::lemma_trimmed_ends(e);
    assert(t[0] == name[0]);
    assert(t.last() == ';');
    text::lemma_trimmed_already(t);
    assert(t.take(n) =~= name);
    assert(t[n] == ' ');
    assert(t[n + 1] == o[0]);
    assert("var "@ =~= "var"@ + seq![' ']);
    assert("val "@ =~= "val"@ + seq![' ']);
    assert("return "@ =~= "return"@ + seq![' ']);
    assert("throw "@ =~= "throw"@ + seq![' ']);
    lemma_not_keyword(t, name, "var"@);
    lemma_not_keyword(t, name, "val"@);
    lemma_not_keyword(t, name, "return"@);
    lemma_not_keyword(t, name, "throw"@);
    lemma_not_call(t, name, "throwIf("@);
    lemma_not_call(t, name, "throwIf ("@);
    lemma_not_call(t, name, "throwUnless("@);
    lemma_not_call(t, name, "throwUnless ("@);
    lemma_compound(name, o, e, line);
    let whole = name + " "@ + o + "= "@ + e;
    assert(t =~= whole + ";"@);
    assert(whole[0] == name[0]);
    assert(whole.last() == e.last());
    sources::lemma_bare(whole);
    if whole == "return"@ {
        assert("return"@[n] == ' ');
    }
}

#[verifier::spinoff_prover]
#[verifier::rlimit(40)]
proof fn lemma_compound(name: Seq<char>, o: Seq<char>, e: Seq<char>, line: u32)
    requires
        grammar::plain_name(name),
        compound_sign(o),
        operand(e),
    ensures
        statement::compound_shape(name + " "@ + o + "= "@ + e + ";"@, line) == Some(
            Stmt::Assign { name, expr: name + " "@ + o + " ("@ + e + ")"@, line },
        ),
{
    reveal_strlit(" ");
    reveal_strlit("= ");
    reveal_strlit(";");
    let t = name + " "@ + o + "= "@ + e + ";"@;
    let n = name.len() as int;
    let w = o.len() as int;
    let i = n + 1 + w;
    sources::lemma_name_lacks(name, '=');
    text::lemma_trimmed_ends(e);
    let q = statement::compound_at(t);
    assert(t[i] == '=');
    assert(t[i + 1] == ' ');
    assert(t[i - 1] == o[w - 1]);
    assert(t[i - 2] == if w == 2 {
        o[0]
    } else {
        ' '
    });
    assert(statement::compound_width(t, i) == w);
    assert(q(i));
    assert forall|j: int| 0 <= j < i implies !#[trigger] q(j) by {
        if j < n {
            assert(t[j] == name[j]);
        } else if j > n {
            assert(t[j] == o[j - n - 1]);
        }
    }
    text::lemma_first_is(0, t.len() as int, q, i);
    assert(t.take(i - w) =~= name + seq![' ']);
    text::lemma_blank_behind(name);
    assert(t.skip(i + 1) =~= seq![' '] + e + ";"@);
    sources::lemma_bare(e);
    assert(t.subrange(i - w, i) =~= o);
    syntax::lemma_name_is_plain(name);
}

/// An assertion is read as its condition and its code, with a blank before the
/// parenthesis or without.
pub proof fn law_assertion_is_read_back(
    cond: Seq<char>,
    code: Seq<char>,
    blank: bool,
    line: u32,
)
    requires
        cond.len() > 0,
        text::trimmed(cond) == cond,
        code.len() > 0,
        text::trimmed(code) == code,
        sources::lacks(code, ','),
    ensures
        statement::statement_of(assertion_text(cond, code, blank), line) == Some(
            Stmt::Assert { condition: cond, code, line },
        ),
{
    reveal_strlit("assert(");
    reveal_strlit("assert (");
    let t = assertion_text(cond, code, blank);
    let k = if blank {
        7int
    } else {
        6int
    };
    assert forall|j: int| 0 <= j <= k implies #[trigger] t[j] != '=' by {
        if blank {
            assert(t[j] == "assert ("@[j]);
        } else {
            assert(t[j] == "assert("@[j]);
        }
    }
    assert(t[0] == 'a');
    assert(t[k] == '(');
    lemma_not_assigned(t, k, line);
    lemma_assertion(cond, code, blank, line);
    lemma_only_assertion(cond, code, blank, line);
}

/// Trimming a text that begins with no white space keeps its characters up to
/// any that is not white.
proof fn lemma_trimmed_keeps(s: Seq<char>, k: int)
    requires
        0 <= k < s.len(),
        !text::white(s[0]),
        !text::white(s[k]),
    ensures
        k < text::trimmed(s).len(),
        text::trimmed(s)[0] == s[0],
        text::trimmed(s)[k] == s[k],
    decreases s.len(),
{
    if text::white(s.last()) {
        lemma_trimmed_keeps(s.drop_last(), k);
    }
}

/// A text with a parenthesis before every equals sign assigns to no variable.
proof fn lemma_not_assigned(t: Seq<char>, k: int, line: u32)
    requires
        0 <= k < t.len(),
        !text::white(t[0]),
        t[k] == '(',
        forall|j: int| 0 <= j <= k ==> #[trigger] t[j] != '=',
    ensures
        statement::compound_shape(t, line) is None,
        statement::assign_shape(t, line) is None,
{
    let c = statement::compound_at(t);
    text::lemma_first_from(0, t.len() as int, c);
    match text::first_from(0, t.len() as int, c) {
        Some(i) => {
            assert(c(i));
            lemma_no_identifier(t.take(i - statement::compound_width(t, i)), k);
        },
        None => {},
    }
    let a = brackets::assign_at(t);
    text::lemma_first_from(0, t.len() as int, a);
    match brackets::assign_pos(t) {
        Some(i) => {
            assert(a(i));
            lemma_no_identifier(t.take(i), k);
        },
        None => {},
    }
}

proof fn lemma_no_identifier(s: Seq<char>, k: int)
    requires
        0 <= k < s.len(),
        !text::white(s[0]),
        s[k] == '(',
    ensures
        !syntax::identifier(text::trimmed(s)),
{
    lemma_trimmed_keeps(s, 0);
    lemma_trimmed_keeps(s, k);
    let once = text::trimmed(s);
    lemma_trimmed_keeps(once, k);
    let twice = text::trimmed(once);
    if k > 0 {
        assert(twice.skip(1)[k - 1] == '(');
    }
}

#[verifier::spinoff_prover]
#[verifier::rlimit(40)]
proof fn lemma_assertion(cond: Seq<char>, code: Seq<char>, blank: bool, line: u32)
    requires
        cond.len() > 0,
        text::trimmed(cond) == cond,
        code.len() > 0,
        text::trimmed(code) == code,
        sources::lacks(code, ','),
    ensures
        statement::assert_shape(assertion_text(cond, code, blank), line) == Some(
            Stmt::Assert { condition: cond, code, line },
        ),
{
    reveal_strlit("assert(");
    reveal_strlit("assert (");
    reveal_strlit(", ");
    reveal_strlit(");");
    reveal_strlit(";");
    let t = assertion_text(cond, code, blank);
    let head = if blank {
        "assert ("@
    } else {
        "assert("@
    };
    let inner = cond + ", "@ + code;
    let closed = inner + seq![')'];
    let rest = closed + ";"@;
    assert(t =~= head + rest);
    text::lemma_after(head, rest);
    if blank && "assert("@.is_prefix_of(t) {
        assert(t.subrange(0, 7)[6] == t[6]);
        assert(t[6] == ' ');
    }
    text::lemma_trimmed_ends(cond);
    text::lemma_trimmed_ends(code);
    assert(closed[0] == cond[0]);
    assert(closed.last() == ')');
    sources::lemma_bare(closed);
    assert(closed.drop_last() =~= inner);
    assert(inner[0] == cond[0]);
    assert(inner.last() == code.last());
    text::lemma_trimmed_already(inner);
    let n = cond.len() as int;
    let q = text::is_at(inner, ',');
    text::lemma_last_below(inner.len() as int, q);
    assert(q(n));
    assert forall|j: int| n < j < inner.len() implies !#[trigger] q(j) by {
        if j > n + 1 {
            assert(inner[j] == code[j - n - 2]);
        }
    }
    assert(inner.take(n) =~= cond);
    assert(inner.skip(n + 1) =~= seq![' '] + code);
    text::lemma_blank_before(code);
}

#[verifier::spinoff_prover]
#[verifier::rlimit(40)]
proof fn lemma_only_assertion(cond: Seq<char>, code: Seq<char>, blank: bool, line: u32)
    ensures
        ({
            let t = assertion_text(cond, code, blank);
            &&& text::trimmed(t) == t
            &&& statement::binding_shape(t, line) is None
            &&& statement::return_shape(t, line) is None
            &&& statement::throw_shape(t, line) is None
            &&& statement::gated_shape(t, line) is None
        }),
{
    reveal_strlit("assert(");
    reveal_strlit("assert (");
    reveal_strlit(", ");
    reveal_strlit(");");
    reveal_strlit(";");
    reveal_strlit("var ");
    reveal_strlit("val ");
    reveal_strlit("return");
    reveal_strlit("return ");
    reveal_strlit("throw ");
    reveal_strlit("throwIf(");
    reveal_strlit("throwIf (");
    reveal_strlit("throwUnless(");
    reveal_strlit("throwUnless (");
    let t = assertion_text(cond, code, blank);
    assert(t[0] == 'a');
    assert(t.last() == ';');
    text::lemma_trimmed_already(t);
    blocks::lemma_other_start(t, "var "@);
    blocks::lemma_other_start(t, "val "@);
    blocks::lemma_other_start(t, "return "@);
    blocks::lemma_other_start(t, "throw "@);
    blocks::lemma_other_start(t, "throwIf("@);
    blocks::lemma_other_start(t, "throwIf ("@);
    blocks::lemma_other_start(t, "throwUnless("@);
    blocks::lemma_other_start(t, "throwUnless ("@);
    let all = t.drop_last();
    assert(t =~= all + ";"@);
    assert(all[0] == 'a');
    assert(all.last() == ')');
    sources::lemma_bare(all);
    if all == "return"@ {
        assert("return"@[0] == 'a');
    }
}

/// An assertion as it is written.
pub open spec fn assertion_text(cond: Seq<char>, code: Seq<char>, blank: bool) -> Seq<char> {
    if blank {
        "assert ("@ + cond + ", "@ + code + ");"@
    } else {
        "assert("@ + cond + ", "@ + code + ");"@
    }
}

/// A text that begins with a name and a parenthesis begins with no other word
/// and a parenthesis or a blank.
proof fn lemma_other_call(t: Seq<char>, name: Seq<char>, p: Seq<char>)
    requires
        grammar::plain_name(name),
        name.len() < t.len(),
        t.take(name.len() as int) == name,
        t[name.len() as int] == '(',
        p.len() > 0,
        p.last() == ' ' || p.last() == '(' && p.drop_last() != name,
        forall|i: int| 0 <= i < p.len() - 1 ==> #[trigger] p[i] != '(',
    ensures
        text::after(t, p) is None,
{
    sources::lemma_name_lacks(name, '(');
    sources::lemma_name_lacks(name, ' ');
    let n = name.len() as int;
    let k = p.len() - 1;
    if p.is_prefix_of(t) {
        let front = t.subrange(0, p.len() as int);
        assert(front == p);
        assert(t[k] == front[k]);
        if n < k {
            assert(front[n] == t[n]);
            assert(p[n] == '(');
        } else if n > k {
            assert(t.take(n)[k] == t[k]);
            assert(name[k] == p[k]);
        } else {
            assert forall|i: int| 0 <= i < n implies name[i] == p.drop_last()[i] by {
                assert(front[i] == t[i]);
                assert(t.take(n)[i] == t[i]);
            }
            assert(name =~= p.drop_last());
        }
    }
}

/// A call that stands alone is a statement of that expression.
pub proof fn law_call_statement_is_read_back(name: Seq<char>, args: Seq<char>, line: u32)
    requires
        grammar::plain_name(name),
        name != "throwIf"@,
        name != "throwUnless"@,
        name != "assert"@,
    ensures
        statement::statement_of(name + "("@ + args + ");"@, line) == Some(
            Stmt::ExprStatement { expr: name + "("@ + args + ")"@, line },
        ),
{
    reveal_strlit("(");
    reveal_strlit(")");
    reveal_strlit(");");
    let t = name + "("@ + args + ");"@;
    let e = name + "("@ + args + ")"@;
    let n = name.len() as int;
    syntax::lemma_name_is_plain(name);
    sources::lemma_name_lacks(name, '=');
    sources::lemma_name_lacks(name, '{');
    assert(t.take(n) =~= name);
    assert(t[0] == name[0]);
    assert(t[n] == '(');
    assert(t.last() == ';');
    text::lemma_trimmed_ends(name);
    text::lemma_trimmed_already(t);
    assert forall|j: int| 0 <= j <= n implies #[trigger] t[j] != '=' by {
        if j < n {
            assert(t[j] == name[j]);
        }
    }
    lemma_not_assigned(t, n, line);
    lemma_only_call(t, name, line);
    assert(t.drop_last() =~= e);
    assert(e[0] == name[0]);
    assert(e.last() == ')');
    assert(text::rtrim_char(e, ';') == e);
    reveal_with_fuel(text::rtrim_char, 2);
    text::lemma_trimmed_already(e);
    let q = text::is_at(e, '(');
    text::lemma_first_from(0, e.len() as int, q);
    assert(q(n));
}

#[verifier::spinoff_prover]
#[verifier::rlimit(40)]
proof fn lemma_only_call(t: Seq<char>, name: Seq<char>, line: u32)
    requires
        grammar::plain_name(name),
        name != "throwIf"@,
        name != "throwUnless"@,
        name != "assert"@,
        name.len() + 1 < t.len(),
        t.take(name.len() as int) == name,
        t[name.len() as int] == '(',
        t[t.len() - 2] == ')',
        t.last() == ';',
    ensures
        statement::binding_shape(t, line) is None,
        statement::return_shape(t, line) is None,
        statement::throw_shape(t, line) is None,
        statement::gated_shape(t, line) is None,
        statement::assert_shape(t, line) is None,
{
    reveal_strlit(";");
    reveal_strlit("var ");
    reveal_strlit("val ");
    reveal_strlit("return");
    reveal_strlit("return ");
    reveal_strlit("throw ");
    reveal_strlit("throwIf");
    reveal_strlit("throwIf(");
    reveal_strlit("throwIf (");
    reveal_strlit("throwUnless");
    reveal_strlit("throwUnless(");
    reveal_strlit("throwUnless (");
    reveal_strlit("assert");
    reveal_strlit("assert(");
    reveal_strlit("assert (");
    sources::lemma_name_lacks(name, ' ');
    assert("throwIf("@.drop_last() =~= "throwIf"@);
    assert("throwUnless("@.drop_last() =~= "throwUnless"@);
    assert("assert("@.drop_last() =~= "assert"@);
    assert("throwIf ("@.drop_last()[7] == ' ');
    assert("throwUnless ("@.drop_last()[11] == ' ');
    assert("assert ("@.drop_last()[6] == ' ');
    lemma_other_call(t, name, "var "@);
    lemma_other_call(t, name, "val "@);
    lemma_other_call(t, name, "return "@);
    lemma_other_call(t, name, "throw "@);
    lemma_other_call(t, name, "throwIf("@);
    lemma_other_call(t, name, "throwIf ("@);
    lemma_other_call(t, name, "throwUnless("@);
    lemma_other_call(t, name, "throwUnless ("@);
    lemma_other_call(t, name, "assert("@);
    lemma_other_call(t, name, "assert ("@);
    let all = t.drop_last();
    assert(t =~= all + ";"@);
    syntax::lemma_name_is_plain(name);
    text::lemma_trimmed_ends(name);
    assert(t.take(name.len() as int)[0] == t[0]);
    assert(all[0] == name[0]);
    assert(all.last() == ')');
    sources::lemma_bare(all);
    if all == "return"@ {
        assert("return"@[5] == 'n');
    }
}

/// Statements on one line, each with its semicolon.
pub open spec fn body_text(parts: Seq<Seq<char>>) -> Seq<char>
    decreases parts.len(),
{
    if parts.len() == 0 {
        Seq::empty()
    } else if parts.len() == 1 {
        parts[0] + ";"@
    } else {
        parts[0] + "; "@ + body_text(parts.skip(1))
    }
}

/// A part of a line of statements.
pub open spec fn part(s: Seq<char>) -> bool {
    s.len() > 0 && text::trimmed(s) == s && sources::lacks(s, ';')
}

/// The statements that the parts write, in order.
pub open spec fn parts_meaning(parts: Seq<Seq<char>>, line: u32) -> Seq<Stmt>
    decreases parts.len(),
{
    if parts.len() == 0 {
        Seq::empty()
    } else {
        let done = parts_meaning(parts.drop_last(), line);
        match statement::statement_of(parts.last() + ";"@, line) {
            Some(s) => done.push(s),
            None => done,
        }
    }
}

/// The pieces are these parts but for white space, with an empty one behind
/// them.
spec fn pieces_are(pieces: Seq<Seq<char>>, parts: Seq<Seq<char>>) -> bool {
    &&& pieces.len() == parts.len() + 1
    &&& text::trimmed(pieces.last()).len() == 0
    &&& forall|k: int| 0 <= k < parts.len() ==> text::trimmed(#[trigger] pieces[k]) == parts[k]
}

#[verifier::spinoff_prover]
#[verifier::rlimit(40)]
proof fn lemma_parts(parts: Seq<Seq<char>>, front: Seq<char>)
    requires
        parts.len() > 0,
        forall|k: int| 0 <= k < parts.len() ==> part(#[trigger] parts[k]),
        front == Seq::<char>::empty() || front == seq![' '],
    ensures
        pieces_are(text::split_on(front + body_text(parts), ';'), parts),
        body_text(parts).len() > 0,
        !text::white(body_text(parts)[0]),
        body_text(parts).last() == ';',
    decreases parts.len(),
{
    reveal_strlit(";");
    reveal_strlit("; ");
    let p = parts[0];
    let piece = front + p;
    let s = body_text(parts);
    assert(part(p));
    text::lemma_trimmed_ends(p);
    text::lemma_blank_before(p);
    assert(Seq::<char>::empty() + p =~= p);
    assert(sources::lacks(piece, ';')) by {
        assert forall|i: int| 0 <= i < piece.len() implies #[trigger] piece[i] != ';' by {
            if i >= front.len() {
                assert(piece[i] == p[i - front.len()]);
            }
        }
    }
    let rest = parts.skip(1);
    let behind = if parts.len() == 1 {
        Seq::<char>::empty()
    } else {
        seq![' '] + body_text(rest)
    };
    assert(front + s =~= piece + seq![';'] + behind);
    sources::lemma_find(piece, ';', behind);
    let pieces = text::split_on(behind, ';');
    let all = text::split_on(front + s, ';');
    assert(all =~= seq![piece] + pieces);
    assert(s[0] == p[0]);
    if parts.len() == 1 {
        sources::lemma_find_none(behind, ';');
        text::lemma_trimmed_already(behind);
    } else {
        assert forall|k: int| 0 <= k < rest.len() implies part(#[trigger] rest[k]) by {
            assert(rest[k] == parts[k + 1]);
        }
        lemma_parts(rest, seq![' ']);
        assert(s.last() == body_text(rest).last());
    }
    assert forall|k: int| 0 <= k < parts.len() implies text::trimmed(#[trigger] all[k])
        == parts[k] by {
        if k > 0 {
            assert(all[k] == pieces[k - 1]);
            assert(text::trimmed(pieces[k - 1]) == rest[k - 1]);
        }
    }
}

proof fn lemma_parts_meaning(pieces: Seq<Seq<char>>, parts: Seq<Seq<char>>, n: int, line: u32)
    requires
        pieces_are(pieces, parts),
        forall|k: int| 0 <= k < parts.len() ==> part(#[trigger] parts[k]),
        0 <= n <= parts.len(),
    ensures
        statement::statements_of(pieces.take(n), line) == parts_meaning(parts.take(n), line),
    decreases n,
{
    if n > 0 {
        lemma_parts_meaning(pieces, parts, n - 1, line);
        assert(pieces.take(n).drop_last() =~= pieces.take(n - 1));
        assert(parts.take(n).drop_last() =~= parts.take(n - 1));
        assert(text::trimmed(pieces[n - 1]) == parts[n - 1]);
        assert(part(parts[n - 1]));
    }
}

/// The left side of an arm as it is written.
pub open spec fn arm_head_text(constructor: Seq<char>, binder: Option<Seq<char>>) -> Seq<char> {
    match binder {
        Some(b) => constructor + "("@ + b + ")"@,
        None => constructor,
    }
}

#[verifier::spinoff_prover]
#[verifier::rlimit(40)]
proof fn lemma_arm_head(constructor: Seq<char>, binder: Option<Seq<char>>)
    requires
        grammar::plain_name(constructor),
        binder is Some ==> grammar::plain_name(binder->0),
    ensures
        ({
            let s = arm_head_text(constructor, binder);
            &&& statement::arm_head(s) == Some((constructor, binder))
            &&& sources::lacks(s, '=')
            &&& s.len() > 0
            &&& !text::white(s[0])
            &&& !text::white(s.last())
        }),
{
    reveal_strlit("(");
    reveal_strlit(")");
    let s = arm_head_text(constructor, binder);
    sources::lemma_name_lacks(constructor, '(');
    sources::lemma_name_lacks(constructor, '=');
    syntax::lemma_name_is_plain(constructor);
    text::lemma_trimmed_already(constructor);
    match binder {
        None => {
            sources::lemma_find_none(constructor, '(');
        },
        Some(b) => {
            sources::lemma_name_lacks(b, ')');
            sources::lemma_name_lacks(b, '=');
            syntax::lemma_name_is_plain(b);
            let rest = b + seq![')'];
            assert(s =~= constructor + seq!['('] + rest);
            sources::lemma_find(constructor, '(', rest);
            assert(rest.last() == ')');
            assert(rest.drop_last() =~= b);
            assert(b.last() == b[b.len() - 1]);
            reveal_with_fuel(text::rtrim_char, 2);
            text::lemma_trimmed_already(b);
            assert(s[0] == constructor[0]);
            assert(s.last() == ')');
            assert forall|i: int| 0 <= i < s.len() implies #[trigger] s[i] != '=' by {
                if i < constructor.len() {
                    assert(s[i] == constructor[i]);
                } else if constructor.len() < i < s.len() - 1 {
                    assert(s[i] == b[i - constructor.len() - 1]);
                }
            }
        },
    }
}

/// The arrow of an arm stands behind its left side.
proof fn lemma_arrow(head: Seq<char>, block: Seq<char>)
    requires
        head.len() > 0,
        !text::white(head[0]),
        !text::white(head.last()),
        sources::lacks(head, '='),
        block.len() > 0,
        !text::white(block[0]),
        !text::white(block.last()),
    ensures
        ({
            let t = head + " => "@ + block;
            let n = head.len() as int + 1;
            &&& text::find_text(t, "=>"@) == Some(n)
            &&& text::trimmed(t.take(n)) == head
            &&& text::trimmed(t.skip(n + 2)) == block
        }),
{
    reveal_strlit(" => ");
    reveal_strlit("=>");
    let t = head + " => "@ + block;
    let n = head.len() as int + 1;
    let q = text::is_text_at(t, "=>"@);
    assert(t.skip(n).subrange(0, 2) =~= "=>"@);
    assert(q(n));
    assert forall|j: int| 0 <= j < n implies !#[trigger] q(j) by {
        if q(j) {
            assert(t.skip(j).subrange(0, 2)[0] == t[j]);
            if j < n - 1 {
                assert(t[j] == head[j]);
            }
        }
    }
    text::lemma_first_is(0, t.len() - 2 + 1, q, n);
    assert(t.take(n) =~= head + seq![' ']);
    text::lemma_trimmed_already(head);
    text::lemma_blank_behind(head);
    assert(t.skip(n + 2) =~= seq![' '] + block);
    text::lemma_trimmed_already(block);
    text::lemma_blank_before(block);
}

/// The body of an arm stands between its braces.
proof fn lemma_arm_body(body: Seq<char>)
    requires
        body.len() > 0,
        !text::white(body[0]),
        !text::white(body.last()),
    ensures
        ({
            let inner = text::after("{ "@ + body + " }"@, "{"@);
            &&& inner is Some
            &&& text::before(text::trimmed(inner->0), "}"@) is Some
            &&& text::trimmed(text::before(text::trimmed(inner->0), "}"@)->0) == body
        }),
{
    reveal_strlit("{ ");
    reveal_strlit(" }");
    reveal_strlit("{");
    reveal_strlit("}");
    let padded = body + seq![' '];
    let closed = padded + "}"@;
    let inner = seq![' '] + closed;
    assert("{ "@ + body + " }"@ =~= "{"@ + inner);
    text::lemma_after("{"@, inner);
    assert(closed[0] == body[0]);
    assert(closed.last() == '}');
    text::lemma_trimmed_already(closed);
    text::lemma_blank_before(closed);
    text::lemma_before(padded, "}"@);
    text::lemma_trimmed_already(body);
    text::lemma_blank_behind(body);
}

/// An arm is read as its constructor, its binder if it has one, and the
/// statements of its body, in order.
pub proof fn law_arm_is_read_back(
    constructor: Seq<char>,
    binder: Option<Seq<char>>,
    parts: Seq<Seq<char>>,
    line: u32,
)
    requires
        grammar::plain_name(constructor),
        binder is Some ==> grammar::plain_name(binder->0),
        parts.len() > 0,
        forall|k: int| 0 <= k < parts.len() ==> part(#[trigger] parts[k]),
    ensures
        statement::arm_of(
            arm_head_text(constructor, binder) + " => "@ + ("{ "@ + body_text(parts) + " }"@),
            line,
        ) == Some(
            Arm {
                constructor,
                payload_binding: binder,
                body: parts_meaning(parts, line),
                line,
            },
        ),
{
    reveal_strlit("{ ");
    reveal_strlit(" }");
    let head = arm_head_text(constructor, binder);
    let body = body_text(parts);
    let block = "{ "@ + body + " }"@;
    let t = head + " => "@ + block;
    lemma_arm_head(constructor, binder);
    lemma_parts(parts, Seq::empty());
    assert(Seq::<char>::empty() + body =~= body);
    assert(block[0] == '{');
    assert(block.last() == '}');
    assert(t[0] == head[0]);
    assert(t.last() == '}');
    text::lemma_trimmed_already(t);
    assert(statement::bare(t) == t);
    lemma_arrow(head, block);
    lemma_arm_body(body);
    let pieces = text::split_on(body, ';');
    let n = parts.len() as int;
    lemma_parts_meaning(pieces, parts, n, line);
    assert(parts.take(n) =~= parts);
    lemma_last_piece(pieces, n, line);
}

/// An empty piece at the end writes no statement.
proof fn lemma_last_piece(pieces: Seq<Seq<char>>, n: int, line: u32)
    requires
        0 <= n,
        pieces.len() == n + 1,
        text::trimmed(pieces[n]).len() == 0,
    ensures
        statement::statements_of(pieces, line) == statement::statements_of(pieces.take(n), line),
{
    assert(pieces.drop_last() =~= pieces.take(n));
}

/// The keyword of a conditional throw.
pub open spec fn gate_word(mode: GateMode) -> Seq<char> {
    match mode {
        GateMode::If => "throwIf"@,
        GateMode::Unless => "throwUnless"@,
    }
}

/// The blank between the keyword of a conditional throw and its parenthesis may
/// be left out.
#[verifier::spinoff_prover]
#[verifier::rlimit(40)]
pub proof fn law_conditional_throw_needs_no_blank(mode: GateMode, rest: Seq<char>, line: u32)
    ensures
        statement::gated_shape(gate_word(mode) + " ("@ + rest, line) == statement::gated_shape(
            gate_word(mode) + "("@ + rest,
            line,
        ),
{
    reveal_strlit("(");
    reveal_strlit(" (");
    reveal_strlit("throwIf");
    reveal_strlit("throwIf(");
    reveal_strlit("throwIf (");
    reveal_strlit("throwUnless");
    reveal_strlit("throwUnless(");
    reveal_strlit("throwUnless (");
    let a = gate_word(mode) + " ("@ + rest;
    let b = gate_word(mode) + "("@ + rest;
    assert("throwIf"@ + " ("@ =~= "throwIf ("@);
    assert("throwIf"@ + "("@ =~= "throwIf("@);
    assert("throwUnless"@ + " ("@ =~= "throwUnless ("@);
    assert("throwUnless"@ + "("@ =~= "throwUnless("@);
    match mode {
        GateMode::If => {
            text::lemma_after("throwIf ("@, rest);
            text::lemma_after("throwIf("@, rest);
            lemma_differs(a, "throwIf("@, 7);
            lemma_differs(b, "throwIf ("@, 7);
            lemma_differs(a, "throwUnless("@, 5);
            lemma_differs(b, "throwUnless("@, 5);
            lemma_differs(a, "throwUnless ("@, 5);
            lemma_differs(b, "throwUnless ("@, 5);
        },
        GateMode::Unless => {
            text::lemma_after("throwUnless ("@, rest);
            text::lemma_after("throwUnless("@, rest);
            lemma_differs(a, "throwUnless("@, 11);
            lemma_differs(b, "throwUnless ("@, 11);
            lemma_differs(a, "throwIf("@, 5);
            lemma_differs(b, "throwIf("@, 5);
            lemma_differs(a, "throwIf ("@, 5);
            lemma_differs(b, "throwIf ("@, 5);
        },
    }
}

/// A text that differs from a prefix at some place does not begin with it.
proof fn lemma_differs(s: Seq<char>, p: Seq<char>, i: int)
    requires
        0 <= i < p.len(),
        i < s.len(),
        s[i] != p[i],
    ensures
        text::after(s, p) is None,
{
    if p.is_prefix_of(s) {
        assert(s.subrange(0, p.len() as int)[i] == s[i]);
    }
}

/// A `return` may stand alone: it has the empty expression.
pub proof fn law_bare_return_is_read_back(line: u32)
    ensures
        statement::statement_of("return;"@, line) == Some(
            Stmt::Return { expr: Seq::empty(), line },
        ),
{
    reveal_strlit("return;");
    reveal_strlit("return");
    reveal_strlit("return ");
    reveal_strlit(";");
    reveal_strlit("var ");
    reveal_strlit("val ");
    let t = "return;"@;
    assert(t[0] == 'r');
    assert(t.last() == ';');
    text::lemma_trimmed_already(t);
    blocks::lemma_other_start(t, "var "@);
    blocks::lemma_other_start(t, "val "@);
    lemma_differs(t, "return "@, 6);
    assert(t =~= "return"@ + ";"@);
    assert("return"@[0] == 'r');
    assert("return"@.last() == 'n');
    sources::lemma_bare("return"@);
}

} // verus!
