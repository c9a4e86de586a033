//! Parsing of single statements.

use vstd::prelude::*;

use crate::ast;
use crate::ast::{Arm, GateMode, MatchArm, Statement, Stmt};
use crate::brackets;
use crate::expr;
use crate::syntax;
use crate::text;

verus! {

/// `s` without white space around it and without the semicolons at its end.
pub open spec fn bare(s: Seq<char>) -> Seq<char> {
    text::trimmed(text::rtrim_char(text::trimmed(s), ';'))
}

fn strip_semicolons(s: &str) -> (r: &str)
    ensures
        r@ == bare(s@),
{
    text::trim(text::trim_end_char(text::trim(s), ';'))
}

/// `var name: type = expr;` or `var name = expr;`, or with `val`.
pub open spec fn binding_shape(t: Seq<char>, line: u32) -> Option<Stmt> {
    match expr::or_else(text::after(t, "var "@), text::after(t, "val "@)) {
        None => None,
        Some(rest) => match brackets::assign_pos(rest) {
            None => None,
            Some(eq) => {
                let lhs = text::trimmed(rest.take(eq));
                let expr = bare(rest.skip(eq + 1));
                if expr.len() == 0 {
                    None
                } else {
                    match text::find(lhs, ':') {
                        Some(colon) => {
                            let name = text::trimmed(lhs.take(colon));
                            let ty = text::trimmed(lhs.skip(colon + 1));
                            if name.len() > 0 && ty.len() > 0 {
                                Some(Stmt::VarBinding { name, ty_name: Some(ty), expr, line })
                            } else {
                                None
                            }
                        },
                        None => if lhs.len() > 0 && syntax::identifier(lhs) {
                            Some(Stmt::VarBinding { name: lhs, ty_name: None, expr, line })
                        } else {
                            None
                        },
                    }
                }
            },
        },
    }
}

/// What follows a keyword, without the semicolons; `None` if nothing does.
pub open spec fn operand_of(t: Seq<char>, keyword: Seq<char>) -> Option<Seq<char>> {
    match text::after(t, keyword) {
        Some(rest) => if bare(rest).len() > 0 {
            Some(bare(rest))
        } else {
            None
        },
        None => None,
    }
}

/// `return expr;`, or `return;` with no expression.
pub open spec fn return_shape(t: Seq<char>, line: u32) -> Option<Stmt> {
    match operand_of(t, "return "@) {
        Some(expr) => Some(Stmt::Return { expr, line }),
        None => if t.len() > 0 && t.last() == ';' && bare(t) == "return"@ {
            Some(Stmt::Return { expr: Seq::empty(), line })
        } else {
            None
        },
    }
}

/// `throw code;`
pub open spec fn throw_shape(t: Seq<char>, line: u32) -> Option<Stmt> {
    match operand_of(t, "throw "@) {
        Some(code) => Some(Stmt::Throw { code, line }),
        None => None,
    }
}

/// The arguments of a call whose opening parenthesis is already cut off: the
/// semicolons and the closing parenthesis at the end are cut off too.
pub open spec fn arguments_of(rest: Seq<char>) -> Seq<char> {
    let b = bare(rest);
    if b.len() > 0 && b.last() == ')' {
        text::trimmed(b.drop_last())
    } else {
        b
    }
}

/// A gated throw behind one spelling of its keyword: the code, a comma and the
/// condition, which may itself hold commas.
pub open spec fn gate_shape(t: Seq<char>, prefix: Seq<char>, mode: GateMode, line: u32) -> Option<
    Stmt,
> {
    match text::after(t, prefix) {
        None => None,
        Some(rest) => {
            let parts = brackets::comma_pieces(arguments_of(rest));
            if parts.len() >= 2 {
                let code = text::trimmed(parts[0]);
                let condition = text::trimmed(text::joined(parts.skip(1), ", "@));
                if code.len() > 0 && condition.len() > 0 {
                    Some(Stmt::GatedThrow { code, condition, mode, line })
                } else {
                    None
                }
            } else {
                None
            }
        },
    }
}

/// `throwIf(code, cond);` or `throwUnless(code, cond);`, with or without a
/// space before the parenthesis.
pub open spec fn gated_shape(t: Seq<char>, line: u32) -> Option<Stmt> {
    expr::or_else(
        gate_shape(t, "throwIf("@, GateMode::If, line),
        expr::or_else(
            gate_shape(t, "throwIf ("@, GateMode::If, line),
            expr::or_else(
                gate_shape(t, "throwUnless("@, GateMode::Unless, line),
                gate_shape(t, "throwUnless ("@, GateMode::Unless, line),
            ),
        ),
    )
}

/// The number of characters of the operator before the `=` at index `i` of a
/// compound assignment; zero if there is none.
pub open spec fn compound_width(s: Seq<char>, i: int) -> int {
    if i >= 2 && s[i - 2] == s[i - 1] && (s[i - 1] == '<' || s[i - 1] == '>') {
        2
    } else if i >= 1 && (s[i - 1] == '+' || s[i - 1] == '-' || s[i - 1] == '*' || s[i - 1] == '/'
        || s[i - 1] == '%' || s[i - 1] == '&' || s[i - 1] == '|' || s[i - 1] == '^') {
        1
    } else {
        0
    }
}

/// "The `=` of a compound assignment stands at this index."
pub open spec fn compound_at(s: Seq<char>) -> spec_fn(int) -> bool {
    |i: int|
        {
            &&& s[i] == '='
            &&& !(i + 1 < s.len() && s[i + 1] == '=')
            &&& compound_width(s, i) > 0
        }
}

/// `name += expr;` and its like: an assignment of `name + (expr)`.
pub open spec fn compound_shape(t: Seq<char>, line: u32) -> Option<Stmt> {
    match text::first_from(0, t.len() as int, compound_at(t)) {
        None => None,
        Some(i) => {
            let w = compound_width(t, i);
            let name = text::trimmed(t.take(i - w));
            let operand = bare(t.skip(i + 1));
            if syntax::identifier(name) && operand.len() > 0 {
                Some(
                    Stmt::Assign {
                        name,
                        expr: name + " "@ + t.subrange(i - w, i) + " ("@ + operand + ")"@,
                        line,
                    },
                )
            } else {
                None
            }
        },
    }
}

/// `name = expr;`
pub open spec fn assign_shape(t: Seq<char>, line: u32) -> Option<Stmt> {
    match brackets::assign_pos(t) {
        None => None,
        Some(eq) => {
            let name = text::trimmed(t.take(eq));
            let expr = bare(t.skip(eq + 1));
            if syntax::identifier(name) && expr.len() > 0 {
                Some(Stmt::Assign { name, expr, line })
            } else {
                None
            }
        },
    }
}

/// `assert (cond, code);`, split at the last comma.
pub open spec fn assert_shape(t: Seq<char>, line: u32) -> Option<Stmt> {
    match expr::or_else(text::after(t, "assert("@), text::after(t, "assert ("@)) {
        None => None,
        Some(rest) => {
            let inner = arguments_of(rest);
            match text::rfind(inner, ',') {
                None => None,
                Some(comma) => {
                    let condition = text::trimmed(inner.take(comma));
                    let code = text::trimmed(inner.skip(comma + 1));
                    if condition.len() > 0 && code.len() > 0 {
                        Some(Stmt::Assert { condition, code, line })
                    } else {
                        None
                    }
                },
            }
        },
    }
}

/// A bare call made for its effect.
pub open spec fn call_statement_shape(t: Seq<char>, line: u32) -> Option<Stmt> {
    let expr = text::trimmed(text::rtrim_char(t, ';'));
    if expr.len() > 0 && expr.last() == ')' && text::find(expr, '(') is Some && expr[0] != '{' {
        Some(Stmt::ExprStatement { expr, line })
    } else {
        None
    }
}

/// The statement that a line writes, the first shape that fits.
pub open spec fn statement_of(s: Seq<char>, line: u32) -> Option<Stmt> {
    let t = text::trimmed(s);
    expr::or_else(
        binding_shape(t, line),
        expr::or_else(
            return_shape(t, line),
            expr::or_else(
                throw_shape(t, line),
                expr::or_else(
                    gated_shape(t, line),
                    expr::or_else(
                        compound_shape(t, line),
                        expr::or_else(
                            assign_shape(t, line),
                            expr::or_else(assert_shape(t, line), call_statement_shape(t, line)),
                        ),
                    ),
                ),
            ),
        ),
    )
}

fn parse_binding(t: &str, line: u32) -> (r: Option<Statement>)
    ensures
        ast::opt_stmt(r) == binding_shape(t@, line),
{
    let rest = match text::strip_prefix(t, "var ") {
        Some(rest) => rest,
        None => match text::strip_prefix(t, "val ") {
            Some(rest) => rest,
            None => {
                return None;
            },
        },
    };
    let eq = match brackets::find_top_level_assign(rest) {
        Some(eq) => eq,
        None => {
            return None;
        },
    };
    let n: usize = rest.unicode_len();
    assert(eq < n);
    let lhs = text::trim(text::head(rest, eq));
    let expr = strip_semicolons(text::tail(rest, eq + 1));
    if expr.unicode_len() == 0 {
        return None;
    }
    match text::find_char(lhs, ':') {
        Some(colon) => {
            let k: usize = lhs.unicode_len();
            assert(colon < k);
            let name = text::trim(text::head(lhs, colon));
            let ty = text::trim(text::tail(lhs, colon + 1));
            if name.unicode_len() > 0 && ty.unicode_len() > 0 {
                Some(
                    Statement::VarBinding {
                        name: name.to_owned(),
                        ty_name: Some(ty.to_owned()),
                        expr: expr.to_owned(),
                        line,
                    },
                )
            } else {
                None
            }
        },
        None => {
            if lhs.unicode_len() > 0 && syntax::is_simple_identifier(lhs) {
                Some(
                    Statement::VarBinding {
                        name: lhs.to_owned(),
                        ty_name: None,
                        expr: expr.to_owned(),
                        line,
                    },
                )
            } else {
                None
            }
        },
    }
}

fn parse_operand<'a>(t: &'a str, keyword: &str) -> (r: Option<&'a str>)
    ensures
        text::opt_view(r) == operand_of(t@, keyword@),
{
    match text::strip_prefix(t, keyword) {
        Some(rest) => {
            let operand = strip_semicolons(rest);
            if operand.unicode_len() > 0 {
                Some(operand)
            } else {
                None
            }
        },
        None => None,
    }
}

fn strip_arguments(rest: &str) -> (r: &str)
    ensures
        r@ == arguments_of(rest@),
{
    let b = strip_semicolons(rest);
    let n: usize = b.unicode_len();
    if n > 0 && b.get_char(n - 1) == ')' {
        assert(b@.take(n - 1) =~= b@.drop_last());
        text::trim(text::head(b, n - 1))
    } else {
        b
    }
}

fn parse_gate(t: &str, prefix: &str, mode: GateMode, line: u32) -> (r: Option<Statement>)
    ensures
        ast::opt_stmt(r) == gate_shape(t@, prefix@, mode, line),
{
    let rest = match text::strip_prefix(t, prefix) {
        Some(rest) => rest,
        None => {
            return None;
        },
    };
    let mut parts = brackets::split_top_level_commas(strip_arguments(rest));
    let ghost all = text::texts(parts@);
    assert(all.len() == parts@.len());
    if parts.len() < 2 {
        return None;
    }
    let first = parts.remove(0);
    assert(text::texts(parts@) =~= all.skip(1));
    let list = text::join(&parts, ", ");
    let code = text::trim(first.as_str());
    let condition = text::trim(list.as_str());
    if code.unicode_len() > 0 && condition.unicode_len() > 0 {
        Some(
            Statement::GatedThrow {
                code: code.to_owned(),
                condition: condition.to_owned(),
                mode,
                line,
            },
        )
    } else {
        None
    }
}

fn parse_gated(t: &str, line: u32) -> (r: Option<Statement>)
    ensures
        ast::opt_stmt(r) == gated_shape(t@, line),
{
    let a = parse_gate(t, "throwIf(", GateMode::If, line);
    if a.is_some() {
        return a;
    }
    let b = parse_gate(t, "throwIf (", GateMode::If, line);
    if b.is_some() {
        return b;
    }
    let c = parse_gate(t, "throwUnless(", GateMode::Unless, line);
    if c.is_some() {
        return c;
    }
    parse_gate(t, "throwUnless (", GateMode::Unless, line)
}

fn parse_return(t: &str, line: u32) -> (r: Option<Statement>)
    ensures
        ast::opt_stmt(r) == return_shape(t@, line),
{
    if let Some(expr) = parse_operand(t, "return ") {
        return Some(Statement::Return { expr: expr.to_owned(), line });
    }
    if text::ends_with_char(t, ';') && text::str_eq(strip_semicolons(t), "return") {
        let expr = String::new();
        assert(expr@ =~= Seq::empty());
        return Some(Statement::Return { expr, line });
    }
    None
}

fn find_compound_width(v: &Vec<char>, i: usize) -> (w: usize)
    requires
        i < v.len(),
    ensures
        w == compound_width(v@, i as int),
        w <= i,
{
    if i >= 2 && v[i - 2] == v[i - 1] && (v[i - 1] == '<' || v[i - 1] == '>') {
        2
    } else if i >= 1 && (v[i - 1] == '+' || v[i - 1] == '-' || v[i - 1] == '*' || v[i - 1] == '/'
        || v[i - 1] == '%' || v[i - 1] == '&' || v[i - 1] == '|' || v[i - 1] == '^') {
        1
    } else {
        0
    }
}

fn parse_compound(t: &str, line: u32) -> (r: Option<Statement>)
    ensures
        ast::opt_stmt(r) == compound_shape(t@, line),
{
    let v = text::chars_of(t);
    let mut i: usize = 0;
    while i < v.len()
        invariant
            i <= v.len(),
            v@ == t@,
            text::first_from(0, t@.len() as int, compound_at(t@)) == text::first_from(
                i as int,
                t@.len() as int,
                compound_at(t@),
            ),
        decreases v.len() - i,
    {
        if v[i] == '=' && !(i + 1 < v.len() && v[i + 1] == '=') {
            let w: usize = find_compound_width(&v, i);
            if w > 0 {
                let name = text::trim(text::head(t, i - w));
                let operand = strip_semicolons(text::tail(t, i + 1));
                if !syntax::is_simple_identifier(name) || operand.unicode_len() == 0 {
                    return None;
                }
                let mut expr = text::concat3(name, " ", text::slice(t, i - w, i));
                expr.append(" (");
                expr.append(operand);
                expr.append(")");
                return Some(Statement::Assign { name: name.to_owned(), expr, line });
            }
        }
        i += 1;
    }
    None
}

fn parse_assign(t: &str, line: u32) -> (r: Option<Statement>)
    ensures
        ast::opt_stmt(r) == assign_shape(t@, line),
{
    match brackets::find_top_level_assign(t) {
        None => None,
        Some(eq) => {
            let n: usize = t.unicode_len();
            assert(eq < n);
            let name = text::trim(text::head(t, eq));
            let expr = strip_semicolons(text::tail(t, eq + 1));
            if syntax::is_simple_identifier(name) && expr.unicode_len() > 0 {
                Some(Statement::Assign { name: name.to_owned(), expr: expr.to_owned(), line })
            } else {
                None
            }
        },
    }
}

fn parse_assert(t: &str, line: u32) -> (r: Option<Statement>)
    ensures
        ast::opt_stmt(r) == assert_shape(t@, line),
{
    let rest = match text::strip_prefix(t, "assert(") {
        Some(rest) => rest,
        None => match text::strip_prefix(t, "assert (") {
            Some(rest) => rest,
            None => {
                return None;
            },
        },
    };
    let inner = strip_arguments(rest);
    match text::rfind_char(inner, ',') {
        None => None,
        Some(comma) => {
            let n: usize = inner.unicode_len();
            assert(comma < n);
            let condition = text::trim(text::head(inner, comma));
            let code = text::trim(text::tail(inner, comma + 1));
            if condition.unicode_len() > 0 && code.unicode_len() > 0 {
                Some(
                    Statement::Assert {
                        condition: condition.to_owned(),
                        code: code.to_owned(),
                        line,
                    },
                )
            } else {
                None
            }
        },
    }
}

fn parse_call_statement(t: &str, line: u32) -> (r: Option<Statement>)
    ensures
        ast::opt_stmt(r) == call_statement_shape(t@, line),
{
    let expr = text::trim(text::trim_end_char(t, ';'));
    if text::ends_with_char(expr, ')') && text::has_char(expr, '(') && !text::starts_with_char(
        expr,
        '{',
    ) {
        Some(Statement::ExprStatement { expr: expr.to_owned(), line })
    } else {
        None
    }
}

/// Parse a single statement from a line.
pub fn parse_statement(line: &str, line_num: u32) -> (r: Option<Statement>)
    ensures
        ast::opt_stmt(r) == statement_of(line@, line_num),
{
    let t = text::trim(line);
    let binding = parse_binding(t, line_num);
    if binding.is_some() {
        return binding;
    }
    let ret = parse_return(t, line_num);
    if ret.is_some() {
        return ret;
    }
    if let Some(code) = parse_operand(t, "throw ") {
        return Some(Statement::Throw { code: code.to_owned(), line: line_num });
    }
    let gated = parse_gated(t, line_num);
    if gated.is_some() {
        return gated;
    }
    let compound = parse_compound(t, line_num);
    if compound.is_some() {
        return compound;
    }
    let assign = parse_assign(t, line_num);
    if assign.is_some() {
        return assign;
    }
    let assertion = parse_assert(t, line_num);
    if assertion.is_some() {
        return assertion;
    }
    parse_call_statement(t, line_num)
}

/// The constructor and the binding on the left of an arm.
pub open spec fn arm_head(lhs: Seq<char>) -> Option<(Seq<char>, Option<Seq<char>>)> {
    let head = match text::find(lhs, '(') {
        Some(open) => {
            let binder = text::trimmed(text::rtrim_char(lhs.skip(open + 1), ')'));
            if syntax::identifier(binder) {
                Some((text::trimmed(lhs.take(open)), Some(binder)))
            } else {
                None
            }
        },
        None => Some((lhs, None)),
    };
    match head {
        Some((constructor, _)) => if syntax::identifier(constructor) {
            head
        } else {
            None
        },
        None => None,
    }
}

/// The statements of a text in which semicolons separate them.
pub open spec fn statements_of(parts: Seq<Seq<char>>, line: u32) -> Seq<Stmt>
    decreases parts.len(),
{
    if parts.len() == 0 {
        Seq::empty()
    } else {
        let done = statements_of(parts.drop_last(), line);
        let t = text::trimmed(parts.last());
        match statement_of(t + ";"@, line) {
            Some(stmt) => if t.len() > 0 {
                done.push(stmt)
            } else {
                done
            },
            None => done,
        }
    }
}

/// The arm `Constructor[(binding)] => { statements };` that a line writes.
pub open spec fn arm_of(s: Seq<char>, line: u32) -> Option<Arm> {
    let t = bare(s);
    match text::find_text(t, "=>"@) {
        None => None,
        Some(arrow) => {
            let rhs = text::trimmed(t.skip(arrow + 2));
            match (arm_head(text::trimmed(t.take(arrow))), text::after(rhs, "{"@)) {
                (Some((constructor, payload_binding)), Some(inner)) => match text::before(
                    text::trimmed(inner),
                    "}"@,
                ) {
                    Some(body) => Some(
                        Arm {
                            constructor,
                            payload_binding,
                            body: statements_of(text::split_on(text::trimmed(body), ';'), line),
                            line,
                        },
                    ),
                    None => None,
                },
                _ => None,
            }
        },
    }
}

/// The view of the head of an arm.
pub open spec fn head_view(r: Option<(String, Option<String>)>) -> Option<
    (Seq<char>, Option<Seq<char>>),
> {
    match r {
        Some((constructor, binder)) => Some((constructor@, text::opt_text(binder))),
        None => None,
    }
}

fn parse_arm_head(lhs: &str) -> (r: Option<(String, Option<String>)>)
    ensures
        head_view(r) == arm_head(lhs@),
{
    match text::find_char(lhs, '(') {
        Some(open) => {
            let n: usize = lhs.unicode_len();
            assert(open < n);
            let binder = text::trim(text::trim_end_char(text::tail(lhs, open + 1), ')'));
            if !syntax::is_simple_identifier(binder) {
                return None;
            }
            let constructor = text::trim(text::head(lhs, open));
            if !syntax::is_simple_identifier(constructor) {
                return None;
            }
            Some((constructor.to_owned(), Some(binder.to_owned())))
        },
        None => {
            if !syntax::is_simple_identifier(lhs) {
                return None;
            }
            Some((lhs.to_owned(), None))
        },
    }
}

fn parse_statements(body: &str, line: u32) -> (r: Vec<Statement>)
    ensures
        ast::block_model(r@) == statements_of(text::split_on(body@, ';'), line),
{
    let parts = text::split_char(body, ';');
    let ghost all = text::views(parts@);
    let mut out: Vec<Statement> = Vec::new();
    let mut i: usize = 0;
    assert(all.take(0) =~= Seq::empty());
    while i < parts.len()
        invariant
            i <= parts.len(),
            all == text::views(parts@),
            ast::block_model(out@) == statements_of(all.take(i as int), line),
        decreases parts.len() - i,
    {
        let t = text::trim(parts[i]);
        proof {
            assert(all.take(i + 1).drop_last() =~= all.take(i as int));
            assert(all.take(i + 1).last() == parts@[i as int]@);
        }
        if t.unicode_len() > 0 {
            let ended = text::concat2(t, ";");
            if let Some(stmt) = parse_statement(ended.as_str(), line) {
                proof {
                    ast::lemma_block_push(out@, stmt);
                }
                out.push(stmt);
            }
        }
        i += 1;
    }
    assert(all.take(i as int) =~= all);
    out
}

/// Parse an arm of a `match`.
pub fn parse_match_arm(line: &str, line_num: u32) -> (r: Option<MatchArm>)
    ensures
        match r {
            Some(arm) => arm_of(line@, line_num) == Some(arm.model()),
            None => arm_of(line@, line_num) is None,
        },
{
    let t = strip_semicolons(line);
    proof {
        reveal_strlit("=>");
    }
    let arrow = match text::find_str(t, "=>") {
        Some(arrow) => arrow,
        None => {
            return None;
        },
    };
    let n: usize = t.unicode_len();
    assert(arrow + 2 <= n);
    let lhs = text::trim(text::head(t, arrow));
    let rhs = text::trim(text::tail(t, arrow + 2));
    let (constructor, payload_binding) = match parse_arm_head(lhs) {
        Some(head) => head,
        None => {
            return None;
        },
    };
    let inner = match text::strip_prefix(rhs, "{") {
        Some(inner) => text::trim(inner),
        None => {
            return None;
        },
    };
    let body = match text::strip_suffix(inner, "}") {
        Some(body) => text::trim(body),
        None => {
            return None;
        },
    };
    let body = parse_statements(body, line_num);
    Some(MatchArm { constructor, payload_binding, body, line: line_num })
}

} // verus!
