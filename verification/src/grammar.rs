//! Statements and lists are read as they are written.

use vstd::prelude::*;

use crate::ast::{GateMode, Stmt};
use crate::brackets;
use crate::chars;
use crate::expr;
use crate::log_text;
use crate::semantics;
use crate::statement;
use crate::syntax;
use crate::text;

verus! {

/// An operand as it is written: not blank, without white space around it and
/// without a semicolon at its end.
pub open spec fn operand(s: Seq<char>) -> bool {
    s.len() > 0 && text::trimmed(s) == s && s.last() != ';'
}

/// A name as it is written, without white space around it.
pub open spec fn plain_name(s: Seq<char>) -> bool {
    syntax::word_name(s) && text::trimmed(s) == s
}

/// A type as it is written: its brackets balance, and it holds no `=`.
pub open spec fn plain_type(s: Seq<char>) -> bool {
    &&& s.len() > 0
    &&& text::trimmed(s) == s
    &&& brackets::depth(s) == 0
    &&& forall|i: int| 0 <= i < s.len() ==> #[trigger] s[i] != '='
}

/// The blank and the semicolon around an operand are cut off.
proof fn lemma_bare_operand(e: Seq<char>)
    requires
        operand(e),
    ensures
        statement::bare(e + ";"@) == e,
        statement::bare(" "@ + e + ";"@) == e,
{
    reveal_strlit(";");
    reveal_strlit(" ");
    text::lemma_trimmed_ends(e);
    let t = e + ";"@;
    assert(t[0] == e[0]);
    assert(t.last() == ';');
    text::lemma_trimmed_already(t);
    assert(t.drop_last() =~= e);
    reveal_with_fuel(text::rtrim_char, 2);
    let u = " "@ + e + ";"@;
    assert(u[0] == ' ');
    assert(u.skip(1) =~= t);
    reveal_with_fuel(text::ltrim, 2);
}

/// A name has no brackets.
proof fn lemma_word_depth(s: Seq<char>)
    requires
        forall|i: int|
            0 <= i < s.len() && chars::ascii(#[trigger] s[i]) ==> chars::ascii_word(s[i]),
    ensures
        brackets::depth(s) == 0,
    decreases s.len(),
{
    if s.len() > 0 {
        let less = s.drop_last();
        assert forall|i: int| 0 <= i < less.len() && chars::ascii(#[trigger] less[i]) implies
            chars::ascii_word(less[i]) by {
            assert(less[i] == s[i]);
        }
        lemma_word_depth(less);
        assert(s.last() == s[s.len() - 1]);
    }
}

/// The sign of an assignment is found behind a left side without one.
proof fn lemma_assign_pos(lhs: Seq<char>, rhs: Seq<char>)
    requires
        brackets::depth(lhs) == 0,
        forall|i: int| 0 <= i < lhs.len() ==> #[trigger] lhs[i] != '=',
    ensures
        brackets::assign_pos(lhs + " = "@ + rhs) == Some(lhs.len() as int + 1),
{
    reveal_strlit(" = ");
    let s = lhs + " = "@ + rhs;
    let n = lhs.len() as int + 1;
    let p = brackets::assign_at(s);
    assert(s.take(n) =~= lhs + seq![' ']);
    brackets::lemma_depth_add(lhs, seq![' ']);
    assert(seq![' '].drop_last() =~= Seq::empty());
    reveal_with_fuel(brackets::depth, 2);
    assert(brackets::depth(seq![' ']) == 0);
    assert(s[n] == '=');
    assert(s[n + 1] == ' ');
    assert(s[n - 1] == ' ');
    assert(p(n));
    assert forall|j: int| 0 <= j < n implies !#[trigger] p(j) by {
        if j < lhs.len() {
            assert(s[j] == lhs[j]);
        } else {
            assert(s[j] == ' ');
        }
    }
    text::lemma_first_is(0, s.len() as int, p, n);
}

/// The rest of a binding behind its keyword.
proof fn lemma_binding_rest(lhs: Seq<char>, e: Seq<char>)
    requires
        lhs.len() > 0,
        text::trimmed(lhs) == lhs,
        brackets::depth(lhs) == 0,
        forall|i: int| 0 <= i < lhs.len() ==> #[trigger] lhs[i] != '=',
        operand(e),
    ensures
        ({
            let rest = lhs + " = "@ + (e + ";"@);
            &&& brackets::assign_pos(rest) == Some(lhs.len() as int + 1)
            &&& text::trimmed(rest.take(lhs.len() as int + 1)) == lhs
            &&& statement::bare(rest.skip(lhs.len() as int + 2)) == e
        }),
{
    reveal_strlit(" = ");
    reveal_strlit(" ");
    let rest = lhs + " = "@ + (e + ";"@);
    let n = lhs.len() as int + 1;
    lemma_assign_pos(lhs, e + ";"@);
    text::lemma_trimmed_ends(lhs);
    assert(rest.take(n) =~= lhs + seq![' ']);
    text::lemma_blank_behind(lhs);
    assert(rest.skip(n + 1) =~= " "@ + e + ";"@);
    lemma_bare_operand(e);
}

/// A binding with a type is read as it is written, behind `var` and behind
/// `val` alike.
#[verifier::spinoff_prover]
#[verifier::rlimit(30)]
pub proof fn law_typed_binding_is_read_back(
    name: Seq<char>,
    ty: Seq<char>,
    e: Seq<char>,
    constant: bool,
    line: u32,
)
    requires
        plain_name(name),
        plain_type(ty),
        operand(e),
    ensures
        ({
            let keyword = if constant {
                "val "@
            } else {
                "var "@
            };
            let source = keyword + (name + ": "@ + ty + " = "@ + (e + ";"@));
            statement::statement_of(source, line) == Some(
                Stmt::VarBinding { name, ty_name: Some(ty), expr: e, line },
            )
        }),
{
    reveal_strlit("var ");
    reveal_strlit("val ");
    reveal_strlit(": ");
    reveal_strlit(";");
    let keyword = if constant {
        "val "@
    } else {
        "var "@
    };
    syntax::lemma_name_is_plain(name);
    lemma_word_depth(name);
    text::lemma_trimmed_ends(name);
    text::lemma_trimmed_ends(ty);
    let lhs = name + ": "@ + ty;
    let rest = lhs + " = "@ + (e + ";"@);
    let source = keyword + rest;
    assert(lhs[0] == name[0]);
    assert(lhs.last() == ty.last());
    text::lemma_trimmed_already(lhs);
    brackets::lemma_depth_add(name, ": "@);
    brackets::lemma_depth_add(name + ": "@, ty);
    assert(": "@.drop_last() =~= seq![':']);
    assert(seq![':'].drop_last() =~= Seq::empty());
    reveal_with_fuel(brackets::depth, 3);
    assert(brackets::depth(": "@) == 0);
    assert forall|i: int| 0 <= i < lhs.len() implies #[trigger] lhs[i] != '=' by {
        if i < name.len() {
            assert(lhs[i] == name[i]);
        } else if i >= name.len() + 2 {
            assert(lhs[i] == ty[i - name.len() - 2]);
        }
    }
    lemma_binding_rest(lhs, e);
    assert(source[0] == 'v');
    assert(source.last() == ';');
    text::lemma_trimmed_already(source);
    text::lemma_after(keyword, rest);
    if constant {
        if "var "@.is_prefix_of(source) {
            assert(source.subrange(0, 4)[2] == 'r');
        }
    }
    let p = text::is_at(lhs, ':');
    let n = name.len() as int;
    assert(p(n));
    assert forall|j: int| 0 <= j < n implies !#[trigger] p(j) by {
        assert(lhs[j] == name[j]);
    }
    text::lemma_first_is(0, lhs.len() as int, p, n);
    assert(lhs.take(n) =~= name);
    assert(lhs.skip(n + 1) =~= seq![' '] + ty);
    text::lemma_blank_before(ty);
}

/// A binding without a type is read as it is written.
pub proof fn law_untyped_binding_is_read_back(name: Seq<char>, e: Seq<char>, line: u32)
    requires
        plain_name(name),
        operand(e),
    ensures
        statement::statement_of("var "@ + (name + " = "@ + (e + ";"@)), line) == Some(
            Stmt::VarBinding { name, ty_name: None, expr: e, line },
        ),
{
    reveal_strlit("var ");
    reveal_strlit(";");
    syntax::lemma_name_is_plain(name);
    lemma_word_depth(name);
    let rest = name + " = "@ + (e + ";"@);
    let source = "var "@ + rest;
    lemma_binding_rest(name, e);
    assert(source[0] == 'v');
    assert(source.last() == ';');
    text::lemma_trimmed_already(source);
    text::lemma_after("var "@, rest);
    text::lemma_first_from(0, name.len() as int, text::is_at(name, ':'));
}

/// A `return` with a value is read as it is written.
pub proof fn law_return_is_read_back(e: Seq<char>, line: u32)
    requires
        operand(e),
    ensures
        statement::statement_of("return "@ + (e + ";"@), line) == Some(
            Stmt::Return { expr: e, line },
        ),
{
    reveal_strlit("return ");
    reveal_strlit("var ");
    reveal_strlit("val ");
    reveal_strlit(";");
    let source = "return "@ + (e + ";"@);
    assert(source[0] == 'r');
    assert(source.last() == ';');
    text::lemma_trimmed_already(source);
    lemma_not_binding(source);
    text::lemma_after("return "@, e + ";"@);
    lemma_bare_operand(e);
}

/// A `throw` is read as it is written.
pub proof fn law_throw_is_read_back(code: Seq<char>, line: u32)
    requires
        operand(code),
    ensures
        statement::statement_of("throw "@ + (code + ";"@), line) == Some(
            Stmt::Throw { code, line },
        ),
{
    reveal_strlit("throw ");
    reveal_strlit("return ");
    reveal_strlit("return");
    reveal_strlit(";");
    let source = "throw "@ + (code + ";"@);
    assert(source[0] == 't');
    assert(source.last() == ';');
    text::lemma_trimmed_already(source);
    lemma_not_binding(source);
    if "return "@.is_prefix_of(source) {
        assert(source.subrange(0, 7)[0] == 'r');
    }
    lemma_bare_operand(code);
    lemma_bare_keeps_start(source);
    text::lemma_after("throw "@, code + ";"@);
}

/// A text that does not begin with `v` is no binding.
proof fn lemma_not_binding(t: Seq<char>)
    requires
        t.len() > 0,
        t[0] != 'v',
    ensures
        forall|line: u32| #[trigger] statement::binding_shape(t, line) is None,
{
    reveal_strlit("var ");
    reveal_strlit("val ");
    if "var "@.is_prefix_of(t) {
        assert(t.subrange(0, 4)[0] == 'v');
    }
    if "val "@.is_prefix_of(t) {
        assert(t.subrange(0, 4)[0] == 'v');
    }
}

/// Cutting at the end keeps the first character, unless nothing is left.
proof fn lemma_bare_keeps_start(t: Seq<char>)
    requires
        text::trimmed(t) == t,
        t.len() > 0,
    ensures
        statement::bare(t).len() > 0 ==> statement::bare(t)[0] == t[0],
{
    text::lemma_trimmed_ends(t);
    let cut = text::rtrim_char(t, ';');
    lemma_rtrim_char_start(t, ';');
    if cut.len() > 0 {
        assert(text::ltrim(cut) == cut);
        lemma_rtrim_start(cut);
    }
}

proof fn lemma_rtrim_char_start(s: Seq<char>, c: char)
    ensures
        text::rtrim_char(s, c).len() > 0 ==> text::rtrim_char(s, c)[0] == s[0],
    decreases s.len(),
{
    if s.len() > 0 && s.last() == c {
        lemma_rtrim_char_start(s.drop_last(), c);
    }
}

proof fn lemma_rtrim_start(s: Seq<char>)
    ensures
        text::rtrim(s).len() > 0 ==> text::rtrim(s)[0] == s[0],
    decreases s.len(),
{
    if s.len() > 0 && text::white(s.last()) {
        lemma_rtrim_start(s.drop_last());
    }
}

/// Trimming at the end leaves what is not white space.
proof fn lemma_rtrim_reaches(s: Seq<char>, k: int)
    requires
        0 <= k < s.len(),
        !text::white(s[k]),
    ensures
        k < text::rtrim(s).len() <= s.len(),
        forall|j: int| 0 <= j < text::rtrim(s).len() ==> #[trigger] text::rtrim(s)[j] == s[j],
    decreases s.len(),
{
    if text::white(s.last()) {
        lemma_rtrim_reaches(s.drop_last(), k);
    }
}

/// A text with an inner `=` is no name.
proof fn lemma_no_name(s: Seq<char>, k: int)
    requires
        0 < k < s.len(),
        !text::white(s[0]),
        s[k] == '=',
    ensures
        !syntax::identifier(text::trimmed(s)),
{
    lemma_rtrim_reaches(s, k);
    let t = text::trimmed(s);
    assert(t == text::rtrim(s));
    assert(t[0] == s[0]);
    lemma_rtrim_reaches(t, k);
    let u = text::trimmed(t);
    assert(u == text::rtrim(t));
    assert(u[k] == '=');
    assert(u.skip(1)[k - 1] == '=');
    assert(!chars::word(u.skip(1)[k - 1]));
}

/// The sign of a plain assignment is no compound one, and none behind it is
/// taken for one.
proof fn lemma_not_compound(name: Seq<char>, e: Seq<char>, line: u32)
    requires
        plain_name(name),
        operand(e),
    ensures
        statement::compound_shape(name + " = "@ + (e + ";"@), line) is None,
{
    reveal_strlit(" = ");
    let t = name + " = "@ + (e + ";"@);
    let n = name.len() as int + 1;
    syntax::lemma_name_is_plain(name);
    text::lemma_trimmed_ends(name);
    let p = statement::compound_at(t);
    text::lemma_first_from(0, t.len() as int, p);
    assert(t[n - 1] == ' ' && t[n] == '=' && t[n + 1] == ' ');
    if let Some(i) = text::first_from(0, t.len() as int, p) {
        assert(p(i));
        let w = statement::compound_width(t, i);
        if i < n - 1 {
            assert(t[i] == name[i]);
        }
        assert(i > n + 1);
        assert(i - w > n);
        let u = t.take(i - w);
        assert(u[0] == name[0]);
        assert(u[n] == '=');
        lemma_no_name(u, n);
    }
}

/// A text that begins with a keyword and a blank has the keyword as its name.
proof fn lemma_keyword(name: Seq<char>, rest: Seq<char>, keyword: Seq<char>)
    requires
        plain_name(name),
        forall|i: int| 0 <= i < keyword.len() ==> #[trigger] keyword[i] != ' ',
    ensures
        (keyword + seq![' ']).is_prefix_of(name + " = "@ + rest) ==> name == keyword,
{
    reveal_strlit(" = ");
    syntax::lemma_name_is_plain(name);
    let t = name + " = "@ + rest;
    let p = keyword + seq![' '];
    let m = name.len() as int;
    let k = keyword.len() as int;
    if p.is_prefix_of(t) {
        let front = t.subrange(0, p.len() as int);
        assert(front == p);
        assert(t[k] == front[k]);
        assert(t[m] == ' ');
        if m < k {
            assert(front[m] == t[m]);
            assert(keyword[m] == ' ');
        } else if m > k {
            assert(t[k] == name[k]);
        }
        assert forall|j: int| 0 <= j < k implies name[j] == keyword[j] by {
            assert(front[j] == t[j]);
        }
        assert(name =~= keyword);
    }
}

/// A plain assignment is no call of a keyword, with a blank before the
/// parenthesis or without.
proof fn lemma_no_call(name: Seq<char>, rest: Seq<char>, p: Seq<char>)
    requires
        plain_name(name),
        p.len() > 1,
        p.last() == '(',
        forall|i: int| 0 <= i < p.len() - 2 ==> #[trigger] p[i] != ' ',
    ensures
        !p.is_prefix_of(name + " = "@ + rest),
{
    reveal_strlit(" = ");
    syntax::lemma_name_is_plain(name);
    let t = name + " = "@ + rest;
    let m = name.len() as int;
    let k = p.len() - 1;
    if p.is_prefix_of(t) {
        let front = t.subrange(0, p.len() as int);
        assert(front == p);
        assert(t[k] == front[k]);
        assert(t[m] == ' ');
        assert(t[m + 1] == '=');
        if m < k {
            assert(front[m] == t[m]);
            assert(p[m] == ' ');
            assert(m == k - 1);
        } else if m > k {
            assert(t[k] == name[k]);
        }
    }
}

/// A plain assignment is no binding, whatever its name.
proof fn lemma_headless_binding(name: Seq<char>, rest: Seq<char>, line: u32)
    requires
        plain_name(name),
    ensures
        statement::binding_shape(name + " = "@ + rest, line) is None,
{
    reveal_strlit("var ");
    reveal_strlit("val ");
    reveal_strlit("var");
    reveal_strlit("val");
    reveal_strlit(" = ");
    let t = name + " = "@ + rest;
    assert("var "@ =~= "var"@ + seq![' ']);
    assert("val "@ =~= "val"@ + seq![' ']);
    lemma_keyword(name, rest, "var"@);
    lemma_keyword(name, rest, "val"@);
    if name == "var"@ || name == "val"@ {
        let behind = t.skip(4);
        assert(behind[0] == '=');
        assert(behind[1] == ' ');
        assert(behind.take(0) =~= Seq::empty());
        let p = brackets::assign_at(behind);
        assert(p(0));
        text::lemma_first_is(0, behind.len() as int, p, 0);
    }
}

/// An assignment is read as it is written, unless its name is a keyword that
/// begins another statement.
#[verifier::spinoff_prover]
#[verifier::rlimit(40)]
pub proof fn law_assignment_is_read_back(name: Seq<char>, e: Seq<char>, line: u32)
    requires
        plain_name(name),
        name != "return"@,
        name != "throw"@,
        operand(e),
    ensures
        statement::statement_of(name + " = "@ + (e + ";"@), line) == Some(
            Stmt::Assign { name, expr: e, line },
        ),
{
    reveal_strlit("return");
    reveal_strlit("return ");
    reveal_strlit("throw");
    reveal_strlit("throw ");
    reveal_strlit("throwIf(");
    reveal_strlit("throwIf (");
    reveal_strlit("throwUnless(");
    reveal_strlit("throwUnless (");
    reveal_strlit(" = ");
    reveal_strlit(";");
    let t = name + " = "@ + (e + ";"@);
    let n = name.len() as int + 1;
    syntax::lemma_name_is_plain(name);
    text::lemma_trimmed_ends(name);
    lemma_word_depth(name);
    lemma_binding_rest(name, e);
    assert(t[0] == name[0]);
    assert(t.last() == ';');
    text::lemma_trimmed_already(t);
    let rest = e + ";"@;
    assert("return "@ =~= "return"@ + seq![' ']);
    assert("throw "@ =~= "throw"@ + seq![' ']);
    lemma_keyword(name, rest, "return"@);
    lemma_keyword(name, rest, "throw"@);
    lemma_no_call(name, rest, "throwIf("@);
    lemma_no_call(name, rest, "throwIf ("@);
    lemma_no_call(name, rest, "throwUnless("@);
    lemma_no_call(name, rest, "throwUnless ("@);
    lemma_headless_binding(name, rest, line);
    lemma_not_compound(name, e, line);
    assert(statement::bare(t) != "return"@) by {
        let whole = name + " = "@ + e;
        assert(t =~= whole + ";"@);
        text::lemma_trimmed_ends(e);
        assert(whole[0] == name[0]);
        assert(whole.last() == e.last());
        text::lemma_trimmed_already(whole);
        lemma_bare_operand(whole);
        assert(whole[n] == '=');
        if whole == "return"@ {
            assert("return"@[n] == '=');
        }
    }
}

/// The brackets of a text balance: none closes before it was opened, and all
/// are closed at the end; the parentheses among them balance too.
pub open spec fn nested(s: Seq<char>) -> bool {
    &&& forall|k: int| 0 <= k <= s.len() ==> brackets::depth(#[trigger] s.take(k)) >= 0
    &&& brackets::depth(s) == 0
    &&& expr::balanced(s)
}

/// An item of a list as it is written: not blank, without white space around
/// it, its brackets balanced and every comma inside of them.
pub open spec fn list_item(s: Seq<char>) -> bool {
    &&& s.len() > 0
    &&& text::trimmed(s) == s
    &&& nested(s)
    &&& forall|i: int|
        0 <= i < s.len() && #[trigger] s[i] == ',' ==> brackets::depth(s.take(i)) != 0
}

/// A list as it is written.
pub open spec fn list_text(items: Seq<Seq<char>>) -> Seq<char> {
    text::joined(items, ", "@)
}

/// The depths at an index of two balanced texts in a row.
proof fn lemma_nested_take(a: Seq<char>, b: Seq<char>, k: int)
    requires
        nested(a),
        nested(b),
        0 <= k <= a.len() + b.len(),
    ensures
        brackets::depth((a + b).take(k)) >= 0,
        brackets::pair_depth((a + b).take(k), '(', ')') >= 0,
{
    let s = a + b;
    if k <= a.len() {
        assert(s.take(k) =~= a.take(k));
        assert(brackets::pair_depth(a.take(k), '(', ')') >= 0);
    } else {
        let rest = b.take(k - a.len());
        assert(s.take(k) =~= a + rest);
        brackets::lemma_depth_add(a, rest);
        brackets::lemma_pair_add(a, rest, '(', ')');
        assert(brackets::pair_depth(rest, '(', ')') >= 0);
    }
}

/// Balanced texts in a row balance.
proof fn lemma_nested_add(a: Seq<char>, b: Seq<char>)
    requires
        nested(a),
        nested(b),
    ensures
        nested(a + b),
{
    let s = a + b;
    brackets::lemma_depth_add(a, b);
    brackets::lemma_pair_add(a, b, '(', ')');
    assert forall|k: int| 0 <= k <= s.len() implies brackets::depth(#[trigger] s.take(k)) >= 0 by {
        lemma_nested_take(a, b, k);
    }
    assert forall|k: int| 0 <= k <= s.len() implies #[trigger] brackets::pair_depth(
        s.take(k),
        '(',
        ')',
    ) >= 0 by {
        lemma_nested_take(a, b, k);
    }
}

/// A text without brackets balances.
#[verifier::spinoff_prover]
#[verifier::rlimit(40)]
proof fn lemma_flat(s: Seq<char>)
    requires
        forall|i: int| 0 <= i < s.len() ==> brackets::step(#[trigger] s[i]) == 0,
    ensures
        nested(s),
    decreases s.len(),
{
    if s.len() == 0 {
        assert forall|k: int| 0 <= k <= s.len() implies brackets::depth(#[trigger] s.take(k))
            >= 0 by {
            assert(s.take(k) =~= s);
        }
        assert forall|k: int| 0 <= k <= s.len() implies #[trigger] brackets::pair_depth(
            s.take(k),
            '(',
            ')',
        ) >= 0 by {
            assert(s.take(k) =~= s);
        }
    } else {
        let less = s.drop_last();
        let last = s.last();
        assert forall|i: int| 0 <= i < less.len() implies brackets::step(#[trigger] less[i])
            == 0 by {
            assert(less[i] == s[i]);
        }
        lemma_flat(less);
        assert(brackets::step(s[s.len() - 1]) == 0);
        assert forall|k: int| 0 <= k <= s.len() implies brackets::depth(#[trigger] s.take(k))
            >= 0 by {
            if k < s.len() {
                assert(s.take(k) =~= less.take(k));
            } else {
                assert(s.take(k) =~= s);
            }
        }
        assert forall|k: int| 0 <= k <= s.len() implies #[trigger] brackets::pair_depth(
            s.take(k),
            '(',
            ')',
        ) >= 0 by {
            if k < s.len() {
                assert(s.take(k) =~= less.take(k));
                assert(brackets::pair_depth(less.take(k), '(', ')') >= 0);
            } else {
                assert(s.take(k) =~= s);
            }
        }
    }
}

/// The brackets of a list balance.
proof fn lemma_list_nested(items: Seq<Seq<char>>)
    requires
        forall|i: int| 0 <= i < items.len() ==> list_item(#[trigger] items[i]),
    ensures
        nested(list_text(items)),
    decreases items.len(),
{
    if items.len() == 0 {
        lemma_flat(Seq::empty());
    } else {
        assert(list_item(items[items.len() - 1]));
        if items.len() > 1 {
            let less = items.drop_last();
            assert forall|i: int| 0 <= i < less.len() implies list_item(#[trigger] less[i]) by {
                assert(less[i] == items[i]);
            }
            lemma_list_nested(less);
            reveal_strlit(", ");
            lemma_flat(", "@);
            lemma_nested_add(list_text(less), ", "@);
            lemma_nested_add(list_text(less) + ", "@, items.last());
        }
    }
}

/// Searching behind a text is searching in the rest.
proof fn lemma_first_shift(
    p: spec_fn(int) -> bool,
    q: spec_fn(int) -> bool,
    off: int,
    i: int,
    n: int,
)
    requires
        forall|j: int| i <= j < n ==> q(j) == #[trigger] p(off + j),
    ensures
        text::first_from(off + i, off + n, p) == (match text::first_from(i, n, q) {
            Some(k) => Some(off + k),
            None => None,
        }),
    decreases n - i,
{
    if i < n {
        assert(q(i) == p(off + i));
        lemma_first_shift(p, q, off, i + 1, n);
    }
}

/// The pieces behind a text without open brackets are the pieces of the rest.
proof fn lemma_pieces_shift(a: Seq<char>, b: Seq<char>, start: int)
    requires
        brackets::depth(a) == 0,
        0 <= start <= b.len(),
    ensures
        brackets::pieces_from(a + b, a.len() + start) == brackets::pieces_from(b, start),
    decreases b.len() - start,
{
    let s = a + b;
    let off = a.len() as int;
    let p = brackets::comma_at(s);
    let q = brackets::comma_at(b);
    assert forall|j: int| start <= j < b.len() implies q(j) == #[trigger] p(off + j) by {
        assert(s.take(off + j) =~= a + b.take(j));
        brackets::lemma_depth_add(a, b.take(j));
        assert(s[off + j] == b[j]);
    }
    lemma_first_shift(p, q, off, start, b.len() as int);
    text::lemma_first_from(start, b.len() as int, q);
    assert(s.skip(off + start) =~= b.skip(start));
    if let Some(k) = text::first_from(start, b.len() as int, q) {
        assert(s.subrange(off + start, off + k) =~= b.subrange(start, k));
        lemma_pieces_shift(a, b, k + 1);
    }
}

/// The first comma of a list, behind `pre` without commas, ends its first item.
#[verifier::spinoff_prover]
#[verifier::rlimit(40)]
proof fn lemma_first_item(pre: Seq<char>, item: Seq<char>, rest: Seq<char>)
    requires
        pre == Seq::<char>::empty() || pre == seq![' '],
        list_item(item),
    ensures
        brackets::pieces_from(pre + item, 0) == seq![item],
        brackets::pieces_from(pre + item + ", "@ + rest, 0) == seq![item]
            + brackets::pieces_from(seq![' '] + rest, 0),
{
    reveal_strlit(", ");
    text::lemma_trimmed_ends(item);
    let front = pre + item;
    lemma_flat(pre);
    lemma_flat(seq![',']);
    lemma_nested_add(pre, item);
    assert(text::trimmed(front) == item) by {
        if pre.len() == 0 {
            assert(front =~= item);
        } else {
            text::lemma_blank_before(item);
        }
    }
    let m = pre.len() as int;
    let n = front.len() as int;
    let s = front + ", "@ + rest;
    let p = brackets::comma_at(front);
    let q = brackets::comma_at(s);
    assert forall|j: int| 0 <= j < n implies !#[trigger] p(j) by {
        if j >= m {
            assert(front[j] == item[j - m]);
            assert(front.take(j) =~= pre + item.take(j - m));
            brackets::lemma_depth_add(pre, item.take(j - m));
        }
    }
    assert forall|j: int| 0 <= j < n implies !#[trigger] q(j) by {
        assert(s[j] == front[j]);
        assert(s.take(j) =~= front.take(j));
        assert(!p(j));
    }
    text::lemma_first_none(0, n, p);
    assert(front.skip(0) =~= front);
    assert(s[n] == ',');
    assert(s.take(n) =~= front);
    assert(q(n));
    text::lemma_first_is(0, s.len() as int, q, n);
    assert(s.subrange(0, n) =~= front);
    let a = front + seq![','];
    let b = seq![' '] + rest;
    lemma_nested_add(front, seq![',']);
    assert(s =~= a + b);
    lemma_pieces_shift(a, b, 0);
}

proof fn lemma_items(pre: Seq<char>, items: Seq<Seq<char>>)
    requires
        pre == Seq::<char>::empty() || pre == seq![' '],
        items.len() > 0,
        forall|i: int| 0 <= i < items.len() ==> list_item(#[trigger] items[i]),
    ensures
        brackets::pieces_from(pre + list_text(items), 0) == items,
    decreases items.len(),
{
    assert(list_item(items[0]));
    if items.len() == 1 {
        lemma_first_item(pre, items[0], Seq::empty());
        assert(seq![items[0]] =~= items);
    } else {
        let rest = items.skip(1);
        assert forall|i: int| 0 <= i < rest.len() implies list_item(#[trigger] rest[i]) by {
            assert(rest[i] == items[i + 1]);
        }
        text::lemma_joined_front(items, ", "@);
        lemma_first_item(pre, items[0], list_text(rest));
        assert(pre + list_text(items) =~= pre + items[0] + ", "@ + list_text(rest));
        lemma_items(seq![' '], rest);
        assert(seq![items[0]] + rest =~= items);
    }
}

/// A list neither begins nor ends with white space.
proof fn lemma_list_trimmed(items: Seq<Seq<char>>)
    requires
        forall|i: int| 0 <= i < items.len() ==> list_item(#[trigger] items[i]),
    ensures
        text::trimmed(list_text(items)) == list_text(items),
        items.len() > 0 ==> list_text(items).len() > 0,
{
    if items.len() > 0 {
        let s = list_text(items);
        assert(list_item(items[0]));
        assert(list_item(items[items.len() - 1]));
        text::lemma_trimmed_ends(items[0]);
        text::lemma_trimmed_ends(items.last());
        if items.len() > 1 {
            text::lemma_joined_front(items, ", "@);
            assert(s[0] == items[0][0]);
            assert(s.last() == items.last().last());
        }
        text::lemma_trimmed_already(s);
    }
}

/// A list is split into the items that it was written of.
pub proof fn law_list_is_split_into_its_items(items: Seq<Seq<char>>)
    requires
        forall|i: int| 0 <= i < items.len() ==> list_item(#[trigger] items[i]),
    ensures
        brackets::comma_pieces(list_text(items)) == items,
{
    lemma_list_trimmed(items);
    if items.len() == 0 {
        assert(items =~= Seq::empty());
    } else {
        lemma_items(Seq::empty(), items);
        assert(Seq::<char>::empty() + list_text(items) =~= list_text(items));
    }
}

/// The parenthesis that opens an argument list is found from its end.
proof fn lemma_opener(head: Seq<char>, inner: Seq<char>)
    requires
        expr::balanced(inner),
    ensures
        brackets::matching_open(head + "("@ + inner + ")"@, '(', ')') == Some(head.len() as int),
{
    reveal_strlit("(");
    reveal_strlit(")");
    let all = head + "("@ + inner + ")"@;
    let n = head.len() as int;
    let close = seq![')'];
    let open = seq!['('];
    assert(close.drop_last() =~= Seq::empty());
    assert(open.drop_last() =~= Seq::empty());
    reveal_with_fuel(brackets::pair_depth, 2);
    let p = brackets::matches_end(all, '(', ')');
    assert(all.skip(n) =~= open + inner + close);
    brackets::lemma_pair_add(open, inner, '(', ')');
    brackets::lemma_pair_add(open + inner, close, '(', ')');
    assert(p(n));
    assert forall|i: int| n < i < all.len() implies !#[trigger] p(i) by {
        let k = i - n - 1;
        if k < inner.len() {
            let rest = inner.skip(k);
            assert(all.skip(i) =~= rest + close);
            brackets::lemma_pair_add(rest, close, '(', ')');
            assert(inner.take(k) + rest =~= inner);
            brackets::lemma_pair_add(inner.take(k), rest, '(', ')');
            assert(brackets::pair_depth(inner.take(k), '(', ')') >= 0);
        } else {
            assert(all[i] == ')');
        }
    }
    text::lemma_last_below(all.len() as int, p);
}

/// The parenthesis that opens a list of arguments stands behind the name.
pub proof fn lemma_opener_of_list(head: Seq<char>, args: Seq<Seq<char>>)
    requires
        forall|i: int| 0 <= i < args.len() ==> list_item(#[trigger] args[i]),
    ensures
        brackets::matching_open(head + "("@ + list_text(args) + ")"@, '(', ')') == Some(
            head.len() as int,
        ),
{
    lemma_list_nested(args);
    lemma_opener(head, list_text(args));
}

/// A call is read as the name and the arguments that it was written of.
pub proof fn law_call_is_read_back(name: Seq<char>, args: Seq<Seq<char>>)
    requires
        syntax::ascii_name(name),
        forall|i: int| 0 <= i < args.len() ==> list_item(#[trigger] args[i]),
    ensures
        syntax::call_shape(name + "("@ + list_text(args) + ")"@) == Some((name, args)),
{
    reveal_strlit("(");
    reveal_strlit(")");
    let inner = list_text(args);
    let t = name + "("@ + inner + ")"@;
    let n = name.len() as int;
    assert(chars::ascii_word(name[n - 1]));
    assert(t[0] == name[0]);
    assert(t.last() == ')');
    text::lemma_trimmed_already(t);
    text::lemma_trimmed_already(name);
    lemma_list_nested(args);
    lemma_opener(name, inner);
    assert(t.take(n) =~= name);
    assert(t.subrange(n + 1, t.len() - 1) =~= inner);
    law_list_is_split_into_its_items(args);
}

/// A tuple of at least two elements is read as the elements that it was
/// written of.
pub proof fn law_tuple_is_read_back(items: Seq<Seq<char>>)
    requires
        items.len() >= 2,
        forall|i: int| 0 <= i < items.len() ==> list_item(#[trigger] items[i]),
    ensures
        syntax::tuple_shape("("@ + list_text(items) + ")"@) == Some(items),
{
    reveal_strlit("(");
    reveal_strlit(")");
    let inner = list_text(items);
    let t = "("@ + inner + ")"@;
    assert(t[0] == '(');
    assert(t.last() == ')');
    text::lemma_trimmed_already(t);
    lemma_list_nested(items);
    let open = seq!['('];
    let close = seq![')'];
    assert(open.drop_last() =~= Seq::empty());
    assert(close.drop_last() =~= Seq::empty());
    reveal_with_fuel(brackets::depth, 2);
    assert(t =~= open + inner + close);
    brackets::lemma_depth_add(open, inner);
    brackets::lemma_depth_add(open + inner, close);
    assert forall|i: int| 0 <= i < t.len() - 1 implies brackets::depth(#[trigger] t.take(i + 1))
        > 0 by {
        assert(t.take(i + 1) =~= open + inner.take(i));
        brackets::lemma_depth_add(open, inner.take(i));
    }
    assert(t.subrange(1, t.len() - 1) =~= inner);
    law_list_is_split_into_its_items(items);
}

/// A method call is read as the receiver, the method and the arguments that it
/// was written of.
pub proof fn law_method_call_is_read_back(
    receiver: Seq<char>,
    method: Seq<char>,
    args: Seq<Seq<char>>,
)
    requires
        receiver.len() > 0,
        text::trimmed(receiver) == receiver,
        brackets::depth(receiver) == 0,
        plain_name(method),
        forall|i: int| 0 <= i < args.len() ==> list_item(#[trigger] args[i]),
    ensures
        syntax::method_shape(receiver + "."@ + method + "("@ + list_text(args) + ")"@) == Some(
            (receiver, method, args),
        ),
{
    reveal_strlit(".");
    reveal_strlit("(");
    reveal_strlit(")");
    let inner = list_text(args);
    let callee = receiver + "."@ + method;
    let t = callee + "("@ + inner + ")"@;
    let n = callee.len() as int;
    let dot = receiver.len() as int;
    text::lemma_trimmed_ends(receiver);
    text::lemma_trimmed_ends(method);
    syntax::lemma_name_is_plain(method);
    assert(t[0] == receiver[0]);
    assert(t.last() == ')');
    text::lemma_trimmed_already(t);
    lemma_list_nested(args);
    lemma_opener(callee, inner);
    assert(t.take(n) =~= callee);
    assert(callee.last() == method.last());
    assert(text::rtrim(callee) == callee);
    let p = text::is_at(callee, '.');
    text::lemma_last_below(n, p);
    assert(p(dot));
    assert forall|j: int| dot < j < n implies !#[trigger] p(j) by {
        assert(callee[j] == method[j - dot - 1]);
    }
    assert(callee.skip(dot + 1) =~= method);
    assert(t.take(dot) =~= receiver);
    assert(t.subrange(n + 1, t.len() - 1) =~= inner);
    law_list_is_split_into_its_items(args);
}

/// A method call on a name is no call of a function.
pub proof fn lemma_method_is_no_call(name: Seq<char>, method: Seq<char>, args: Seq<Seq<char>>)
    requires
        plain_name(name),
        plain_name(method),
        forall|i: int| 0 <= i < args.len() ==> list_item(#[trigger] args[i]),
    ensures
        syntax::call_shape(name + "."@ + method + "("@ + list_text(args) + ")"@) is None,
{
    reveal_strlit(".");
    reveal_strlit("(");
    reveal_strlit(")");
    let inner = list_text(args);
    let callee = name + "."@ + method;
    let t = callee + "("@ + inner + ")"@;
    text::lemma_trimmed_ends(name);
    text::lemma_trimmed_ends(method);
    syntax::lemma_name_is_plain(method);
    assert(t[0] == name[0]);
    assert(t.last() == ')');
    text::lemma_trimmed_already(t);
    lemma_list_nested(args);
    lemma_opener(callee, inner);
    assert(t.take(callee.len() as int) =~= callee);
    assert(callee[0] == name[0]);
    assert(callee.last() == method[method.len() - 1]);
    text::lemma_trimmed_already(callee);
    assert(callee[name.len() as int] == '.');
}

/// A field of a struct literal as it is written.
pub open spec fn field_text(field: (Seq<char>, Seq<char>)) -> Seq<char> {
    field.0 + ": "@ + field.1
}

/// The fields of a struct literal as they are written.
pub open spec fn field_texts(fields: Seq<(Seq<char>, Seq<char>)>) -> Seq<Seq<char>> {
    fields.map_values(|f: (Seq<char>, Seq<char>)| field_text(f))
}

/// A field is a list item and is read as it is written.
#[verifier::spinoff_prover]
#[verifier::rlimit(40)]
proof fn lemma_field(field: (Seq<char>, Seq<char>))
    requires
        plain_name(field.0),
        list_item(field.1),
    ensures
        list_item(field_text(field)),
        syntax::field_shape(field_text(field)) == Some(field),
{
    reveal_strlit(": ");
    let (name, e) = field;
    let s = field_text(field);
    let n = name.len() as int;
    syntax::lemma_name_is_plain(name);
    text::lemma_trimmed_ends(name);
    text::lemma_trimmed_ends(e);
    assert(s[0] == name[0]);
    assert(s.last() == e.last());
    text::lemma_trimmed_already(s);
    let head = name + ": "@;
    assert forall|i: int| 0 <= i < head.len() implies brackets::step(#[trigger] head[i]) == 0 by {
        if i < n {
            assert(head[i] == name[i]);
        }
    }
    lemma_flat(head);
    lemma_nested_add(head, e);
    assert forall|i: int| 0 <= i < s.len() && #[trigger] s[i] == ',' implies brackets::depth(
        s.take(i),
    ) != 0 by {
        if i < n {
            assert(s[i] == name[i]);
        } else if i >= n + 2 {
            assert(s[i] == e[i - n - 2]);
            assert(s.take(i) =~= head + e.take(i - n - 2));
            brackets::lemma_depth_add(head, e.take(i - n - 2));
        }
    }
    let p = text::is_at(s, ':');
    assert forall|j: int| 0 <= j < n implies !#[trigger] p(j) by {
        assert(s[j] == name[j]);
    }
    assert(p(n));
    text::lemma_first_is(0, s.len() as int, p, n);
    assert(s.take(n) =~= name);
    assert(s.skip(n + 1) =~= seq![' '] + e);
    text::lemma_blank_before(e);
}

proof fn lemma_all_fields(fields: Seq<(Seq<char>, Seq<char>)>)
    requires
        forall|i: int|
            0 <= i < fields.len() ==> plain_name((#[trigger] fields[i]).0) && list_item(
                fields[i].1,
            ),
    ensures
        syntax::all_fields(field_texts(fields)) == Some(fields),
    decreases fields.len(),
{
    let texts = field_texts(fields);
    if fields.len() == 0 {
        assert(fields =~= Seq::empty());
    } else {
        let less = fields.drop_last();
        assert forall|i: int| 0 <= i < less.len() implies plain_name((#[trigger] less[i]).0)
            && list_item(less[i].1) by {
            assert(less[i] == fields[i]);
        }
        lemma_all_fields(less);
        assert(texts.drop_last() =~= field_texts(less));
        let last = fields[fields.len() - 1];
        lemma_field(last);
        assert(less.push(last) =~= fields);
    }
}

/// A struct literal is read as the type name and the fields that it was written
/// of.
pub proof fn law_struct_literal_is_read_back(
    name: Seq<char>,
    fields: Seq<(Seq<char>, Seq<char>)>,
)
    requires
        plain_name(name),
        chars::capital(name[0]),
        forall|i: int|
            0 <= i < fields.len() ==> plain_name((#[trigger] fields[i]).0) && list_item(
                fields[i].1,
            ),
    ensures
        syntax::struct_shape(name + " {"@ + list_text(field_texts(fields)) + "}"@) == Some(
            (name, fields),
        ),
{
    reveal_strlit(" {");
    reveal_strlit("}");
    let texts = field_texts(fields);
    let inner = list_text(texts);
    let t = name + " {"@ + inner + "}"@;
    let n = name.len() as int;
    syntax::lemma_name_is_plain(name);
    text::lemma_trimmed_ends(name);
    assert(t[0] == name[0]);
    assert(t.last() == '}');
    text::lemma_trimmed_already(t);
    let p = text::is_at(t, '{');
    assert forall|j: int| 0 <= j < n + 1 implies !#[trigger] p(j) by {
        if j < n {
            assert(t[j] == name[j]);
        }
    }
    assert(p(n + 1));
    text::lemma_first_is(0, t.len() as int, p, n + 1);
    assert(t.take(n + 1) =~= name + seq![' ']);
    text::lemma_blank_behind(name);
    assert(name[n - 1] != '>');
    assert(t.subrange(n + 2, t.len() - 1) =~= inner);
    assert forall|i: int| 0 <= i < texts.len() implies list_item(#[trigger] texts[i]) by {
        lemma_field(fields[i]);
        assert(texts[i] == field_text(fields[i]));
    }
    law_list_is_split_into_its_items(texts);
    lemma_all_fields(fields);
}

/// A `throwIf` or `throwUnless` is read as the code and the condition that it
/// was written of; a condition may hold commas.
#[verifier::spinoff_prover]
#[verifier::rlimit(30)]
pub proof fn law_conditional_throw_is_read_back(
    code: Seq<char>,
    condition: Seq<Seq<char>>,
    mode: GateMode,
    line: u32,
)
    requires
        list_item(code),
        condition.len() > 0,
        forall|i: int| 0 <= i < condition.len() ==> list_item(#[trigger] condition[i]),
    ensures
        ({
            let items = seq![code] + condition;
            let source = semantics::gate_label(mode) + "("@ + list_text(items) + ");"@;
            statement::statement_of(source, line) == Some(
                Stmt::GatedThrow { code, condition: list_text(condition), mode, line },
            )
        }),
{
    reveal_strlit("throwIf");
    reveal_strlit("throwUnless");
    reveal_strlit("throwIf(");
    reveal_strlit("throwIf (");
    reveal_strlit("throwUnless(");
    reveal_strlit("throw ");
    reveal_strlit("return");
    reveal_strlit("return ");
    reveal_strlit("(");
    reveal_strlit(");");
    reveal_strlit(";");
    let items = seq![code] + condition;
    assert forall|i: int| 0 <= i < items.len() implies list_item(#[trigger] items[i]) by {
        if i > 0 {
            assert(items[i] == condition[i - 1]);
        }
    }
    let inner = list_text(items);
    let keyword = semantics::gate_label(mode) + "("@;
    let rest = inner + ");"@;
    let source = keyword + rest;
    assert(semantics::gate_label(mode) + "("@ + list_text(items) + ");"@ =~= source);
    assert(source[0] == 't');
    assert(source.last() == ';');
    text::lemma_trimmed_already(source);
    lemma_not_binding(source);
    if "return "@.is_prefix_of(source) {
        assert(source.subrange(0, 7)[0] == 'r');
    }
    lemma_bare_keeps_start(source);
    if "throw "@.is_prefix_of(source) {
        assert(source.subrange(0, 6)[5] == ' ');
    }
    text::lemma_after(keyword, rest);
    match mode {
        GateMode::If => {
            assert(keyword =~= "throwIf("@);
        },
        GateMode::Unless => {
            assert(keyword =~= "throwUnless("@);
            if "throwIf("@.is_prefix_of(source) {
                assert(source.subrange(0, 8)[5] == 'I');
            }
            if "throwIf ("@.is_prefix_of(source) {
                assert(source.subrange(0, 9)[5] == 'I');
            }
        },
    }
    lemma_list_trimmed(items);
    text::lemma_trimmed_ends(inner);
    let closed = inner + seq![')'];
    assert(rest =~= closed + ";"@);
    assert(closed[0] == inner[0]);
    assert(closed.last() == ')');
    text::lemma_trimmed_already(closed);
    lemma_bare_operand(closed);
    assert(closed.drop_last() =~= inner);
    law_list_is_split_into_its_items(items);
    lemma_list_trimmed(condition);
    assert(items.skip(1) =~= condition);
}

/// Two words with a blank between them.
pub proof fn lemma_two_words(a: Seq<char>, b: Seq<char>)
    requires
        a.len() > 0,
        b.len() > 0,
        forall|i: int| 0 <= i < a.len() ==> !text::white(#[trigger] a[i]),
        forall|i: int| 0 <= i < b.len() ==> !text::white(#[trigger] b[i]),
    ensures
        text::words_of(a + seq![' '] + b) == seq![a, b],
{
    log_text::lemma_first_word(a, b);
    log_text::lemma_first_word(b, Seq::empty());
    assert(seq![a] + seq![b] =~= seq![a, b]);
}

} // verus!
