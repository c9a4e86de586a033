//! Parsing of blocks of statements.

use vstd::prelude::*;

use crate::ast;
use crate::ast::{Arm, MatchArm, Statement, Stmt};
use crate::brackets;
use crate::expr;
use crate::statement;
use crate::text;

verus! {

/// The condition in `(cond) {`.
pub open spec fn paren_header(s: Seq<char>) -> Option<Seq<char>> {
    match text::after(s, "("@) {
        None => None,
        Some(rest) => match brackets::outer_close(rest) {
            None => None,
            Some(close) => if text::trimmed(rest.skip(close + 1)) == "{"@ {
                Some(text::trimmed(rest.take(close)))
            } else {
                None
            },
        },
    }
}

/// The condition in `keyword (cond) {`.
pub open spec fn block_header(s: Seq<char>, keyword: Seq<char>) -> Option<Seq<char>> {
    match text::after(s, keyword) {
        None => None,
        Some(rest) => paren_header(text::ltrim(rest)),
    }
}

/// The condition in `else if (cond) {`.
pub open spec fn else_if_header(s: Seq<char>) -> Option<Seq<char>> {
    match expr::or_else(text::after(s, "else if"@), text::after(s, "else  if"@)) {
        None => None,
        Some(rest) => paren_header(text::trimmed(rest)),
    }
}

/// The line opens a plain `else` block.
pub open spec fn is_else(s: Seq<char>) -> bool {
    s == "else {"@ || s == "else{"@
}

/// The condition in `} until (cond);`; empty if there is none.
pub open spec fn until_condition(line: Seq<char>) -> Seq<char> {
    let t = if line.len() > 0 && line[0] == '}' {
        text::trimmed(line.skip(1))
    } else {
        text::trimmed(line)
    };
    match text::after(t, "until"@) {
        None => Seq::empty(),
        Some(rest) => match text::after(text::trimmed(rest), "("@) {
            None => Seq::empty(),
            Some(inner) => match text::rfind(inner, ')') {
                None => Seq::empty(),
                Some(close) => text::trimmed(inner.take(close)),
            },
        },
    }
}

/// Strip `(cond) {` and return the condition.
pub fn strip_paren_block_header(rest: &str) -> (r: Option<String>)
    ensures
        text::opt_text(r) == paren_header(rest@),
{
    match text::strip_prefix(rest, "(") {
        None => None,
        Some(inner) => match brackets::find_outer_close(inner) {
            None => None,
            Some(close) => {
                let n: usize = inner.unicode_len();
                assert(close < n);
                if text::str_eq(text::trim(text::tail(inner, close + 1)), "{") {
                    Some(text::trim(text::head(inner, close)).to_owned())
                } else {
                    None
                }
            },
        },
    }
}

/// Recognise `keyword (cond) {` and return the condition.
pub fn strip_block_header(line: &str, keyword: &str) -> (r: Option<String>)
    ensures
        text::opt_text(r) == block_header(line@, keyword@),
{
    match text::strip_prefix(line, keyword) {
        None => None,
        Some(rest) => strip_paren_block_header(text::trim_start(rest)),
    }
}

fn parse_else_if(s: &str) -> (r: Option<String>)
    ensures
        text::opt_text(r) == else_if_header(s@),
{
    match text::strip_prefix(s, "else if") {
        Some(rest) => strip_paren_block_header(text::trim(rest)),
        None => match text::strip_prefix(s, "else  if") {
            Some(rest) => strip_paren_block_header(text::trim(rest)),
            None => None,
        },
    }
}

fn parse_until(line: &str) -> (r: String)
    ensures
        r@ == until_condition(line@),
{
    let t = if text::starts_with_char(line, '}') {
        text::trim(text::tail(line, 1))
    } else {
        text::trim(line)
    };
    match text::strip_prefix(t, "until") {
        None => String::new(),
        Some(rest) => match text::strip_prefix(text::trim(rest), "(") {
            None => String::new(),
            Some(inner) => match text::rfind_char(inner, ')') {
                None => String::new(),
                Some(close) => text::trim(text::head(inner, close)).to_owned(),
            },
        },
    }
}

/// The trimmed line at an index; blank past the end.
pub open spec fn line_at(lines: Seq<Seq<char>>, i: int) -> Seq<char> {
    if 0 <= i < lines.len() {
        text::trimmed(lines[i])
    } else {
        Seq::empty()
    }
}

fn get_line<'a>(lines: &Vec<&'a str>, i: usize) -> (r: &'a str)
    ensures
        r@ == line_at(text::views(lines@), i as int),
{
    if i < lines.len() {
        text::trim(lines[i])
    } else {
        let r = "";
        proof {
            reveal_strlit("");
        }
        assert(r@ =~= Seq::empty());
        r
    }
}

/// The line closes a block, which is not the text's own: of that every bracket
/// is closed.
pub open spec fn closes_enclosing(so_far: Seq<char>, line: Seq<char>) -> bool {
    brackets::depth(so_far) < 0 && line.len() > 0 && line[0] == '}'
}

/// The lines from `next` on are appended to `so_far` until its brackets
/// balance, or until a line would close the enclosing block: the text, and the
/// index of the first line not taken.
pub open spec fn gathered(lines: Seq<Seq<char>>, so_far: Seq<char>, next: int) -> (Seq<char>, int)
    decreases lines.len() - next,
{
    if next >= lines.len() || brackets::depth(so_far) == 0 || closes_enclosing(
        so_far,
        text::trimmed(lines[next]),
    ) {
        (so_far, next)
    } else {
        gathered(lines, so_far + " "@ + text::trimmed(lines[next]), next + 1)
    }
}

/// The logical line that begins at `start`.
pub open spec fn logical_line(lines: Seq<Seq<char>>, start: int) -> (Seq<char>, int) {
    gathered(lines, text::trimmed(lines[start]), start + 1)
}

/// A logical line ends behind its beginning and within the source.
pub proof fn lemma_gathered(lines: Seq<Seq<char>>, so_far: Seq<char>, next: int)
    requires
        0 <= next <= lines.len(),
    ensures
        next <= gathered(lines, so_far, next).1 <= lines.len(),
    decreases lines.len() - next,
{
    if next < lines.len() {
        lemma_gathered(lines, so_far + " "@ + text::trimmed(lines[next]), next + 1);
    }
}

/// A logical line is no longer than it must be and no shorter: a line whose
/// brackets balance stands alone, and what is gathered balances unless the
/// source or the enclosing block ends first.
pub proof fn law_logical_line_balances(lines: Seq<Seq<char>>, start: int)
    requires
        0 <= start < lines.len(),
    ensures
        ({
            let first = text::trimmed(lines[start]);
            let (joined, next) = logical_line(lines, start);
            &&& brackets::depth(first) == 0 ==> (joined, next) == (first, start + 1)
            &&& start < next <= lines.len()
            &&& brackets::depth(joined) == 0 || next == lines.len() || closes_enclosing(
                joined,
                text::trimmed(lines[next]),
            )
        }),
{
    lemma_gathered(lines, text::trimmed(lines[start]), start + 1);
    lemma_gathered_ends(lines, text::trimmed(lines[start]), start + 1);
}

proof fn lemma_gathered_ends(lines: Seq<Seq<char>>, so_far: Seq<char>, next: int)
    requires
        0 <= next <= lines.len(),
    ensures
        ({
            let (joined, end) = gathered(lines, so_far, next);
            brackets::depth(joined) == 0 || end == lines.len() || closes_enclosing(
                joined,
                text::trimmed(lines[end]),
            )
        }),
    decreases lines.len() - next,
{
    if next < lines.len() {
        lemma_gathered_ends(lines, so_far + " "@ + text::trimmed(lines[next]), next + 1);
    }
}

/// Join the lines from `start` on until their brackets balance, or until a line
/// would close the enclosing block. Returns the joined text and the number of
/// lines taken.
pub fn gather_logical_line(lines: &Vec<&str>, start: usize) -> (r: (String, usize))
    requires
        start < lines.len(),
    ensures
        logical_line(text::views(lines@), start as int) == (r.0@, start + r.1),
        1 <= r.1 <= lines.len() - start,
{
    let ghost all = text::views(lines@);
    let mut joined = text::trim(lines[start]).to_owned();
    let mut running = brackets::bracket_depth(joined.as_str());
    let mut i: usize = start + 1;
    while i < lines.len() && running != 0
        invariant
            start < i <= lines.len(),
            all == text::views(lines@),
            running == brackets::depth(joined@),
            gathered(all, joined@, i as int) == logical_line(all, start as int),
        decreases lines.len() - i,
    {
        let next = text::trim(lines[i]);
        if running < 0 && text::starts_with_char(next, '}') {
            return (joined, i - start);
        }
        joined.append(" ");
        joined.append(next);
        running = brackets::bracket_depth(joined.as_str());
        i += 1;
    }
    (joined, i - start)
}

/// A position behind `from`, `to` if it is one.
pub open spec fn past(from: int, to: int) -> int {
    if to > from {
        to
    } else {
        from + 1
    }
}

/// The position behind `i`, or the end of the lines.
pub open spec fn next_line(lines: Seq<Seq<char>>, i: int) -> int {
    if i < lines.len() {
        i + 1
    } else {
        lines.len() as int
    }
}

/// The number of lines from `i` on.
pub open spec fn left(lines: Seq<Seq<char>>, i: int) -> nat {
    if i < lines.len() {
        (lines.len() - i) as nat
    } else {
        0
    }
}

/// The arms of a `match` from line `i` on, and the line that closes it.
pub open spec fn arms_from(lines: Seq<Seq<char>>, i: int) -> (Seq<Arm>, int)
    decreases left(lines, i),
{
    let t = line_at(lines, i);
    if i >= lines.len() || (t.len() > 0 && t[0] == '}') {
        (Seq::empty(), i)
    } else if t.len() == 0 {
        arms_from(lines, i + 1)
    } else {
        let (line, next) = logical_line(lines, i);
        let (rest, end) = arms_from(lines, past(i, next));
        match statement::arm_of(line, (i + 1) as u32) {
            Some(arm) => (seq![arm] + rest, end),
            None => (rest, end),
        }
    }
}

/// The statements of a block from line `i` on, and the line that closes it.
pub open spec fn block_from(lines: Seq<Seq<char>>, i: int) -> (Seq<Stmt>, int)
    decreases left(lines, i), 1int,
{
    let t = line_at(lines, i);
    if i >= lines.len() || (t.len() > 0 && t[0] == '}') {
        (Seq::empty(), i)
    } else {
        let (stmt, next) = item_at(lines, i);
        let (rest, end) = block_from(lines, past(i, next));
        match stmt {
            Some(stmt) => (seq![stmt] + rest, end),
            None => (rest, end),
        }
    }
}

/// The statement that begins at line `i`, and the line behind it.
pub open spec fn item_at(lines: Seq<Seq<char>>, i: int) -> (Option<Stmt>, int)
    decreases left(lines, i), 0int,
{
    let t = line_at(lines, i);
    let line = (i + 1) as u32;
    if i >= lines.len() {
        (None, i + 1)
    } else if let Some(cond) = block_header(t, "if"@) {
        let (then_block, close) = block_from(lines, i + 1);
        let (else_block, end) = else_from(lines, past(i, close));
        (Some(Stmt::If { cond, then_block, else_block, line }), next_line(lines, end))
    } else if let Some(cond) = block_header(t, "while"@) {
        let (body, end) = block_from(lines, i + 1);
        (Some(Stmt::While { cond, body, line }), next_line(lines, end))
    } else if let Some(count_expr) = block_header(t, "repeat"@) {
        let (body, end) = block_from(lines, i + 1);
        (Some(Stmt::Repeat { count_expr, body, line }), next_line(lines, end))
    } else if let Some(scrutinee) = block_header(t, "match"@) {
        let (arms, end) = arms_from(lines, i + 1);
        (Some(Stmt::Match { scrutinee, arms, line }), next_line(lines, end))
    } else if t == "do"@ || t == "do {"@ {
        let (body, end) = block_from(lines, i + 1);
        let cond = until_condition(line_at(lines, end));
        (Some(Stmt::DoUntil { body, cond, line }), next_line(lines, end))
    } else {
        let (joined, next) = logical_line(lines, i);
        (statement::statement_of(joined, line), next)
    }
}

/// The `else` block behind the closing brace at line `close`, and the line
/// that closes the whole: an `else if` is a block of one `if`.
pub open spec fn else_from(lines: Seq<Seq<char>>, close: int) -> (Seq<Stmt>, int)
    decreases left(lines, close), 0int,
{
    let t = line_at(lines, close);
    let here = text::trimmed(t.skip(1));
    let below = line_at(lines, close + 1);
    if close >= lines.len() {
        (Seq::empty(), close)
    } else if t.len() > 0 && t[0] == '}' && else_if_header(here) is Some {
        let (then_block, end) = block_from(lines, close + 1);
        let (else_block, last) = else_from(lines, past(close, end));
        (
            seq![
                Stmt::If {
                    cond: else_if_header(here)->0,
                    then_block,
                    else_block,
                    line: (close + 1) as u32,
                },
            ],
            last,
        )
    } else if t.len() > 0 && t[0] == '}' && is_else(here) {
        block_from(lines, close + 1)
    } else if close + 1 < lines.len() && else_if_header(below) is Some {
        let (then_block, end) = block_from(lines, close + 2);
        let (else_block, last) = else_from(lines, past(close, end));
        (
            seq![
                Stmt::If {
                    cond: else_if_header(below)->0,
                    then_block,
                    else_block,
                    line: (close + 2) as u32,
                },
            ],
            last,
        )
    } else if close + 1 < lines.len() && is_else(below) {
        block_from(lines, close + 2)
    } else {
        (Seq::empty(), close)
    }
}

proof fn lemma_arms_end(lines: Seq<Seq<char>>, i: int)
    requires
        0 <= i <= lines.len(),
    ensures
        i <= arms_from(lines, i).1 <= lines.len(),
    decreases left(lines, i),
{
    let t = line_at(lines, i);
    if i >= lines.len() || (t.len() > 0 && t[0] == '}') {
    } else if t.len() == 0 {
        lemma_arms_end(lines, i + 1);
    } else {
        lemma_gathered(lines, text::trimmed(lines[i]), i + 1);
        lemma_arms_end(lines, past(i, logical_line(lines, i).1));
    }
}

proof fn lemma_block_end(lines: Seq<Seq<char>>, i: int)
    requires
        0 <= i <= lines.len(),
    ensures
        i <= block_from(lines, i).1 <= lines.len(),
    decreases left(lines, i), 1int,
{
    let t = line_at(lines, i);
    if i >= lines.len() || (t.len() > 0 && t[0] == '}') {
    } else {
        lemma_item_end(lines, i);
        lemma_block_end(lines, past(i, item_at(lines, i).1));
    }
}

proof fn lemma_item_end(lines: Seq<Seq<char>>, i: int)
    requires
        0 <= i < lines.len(),
    ensures
        i < item_at(lines, i).1 <= lines.len(),
    decreases left(lines, i), 0int,
{
    lemma_block_end(lines, i + 1);
    lemma_arms_end(lines, i + 1);
    lemma_gathered(lines, text::trimmed(lines[i]), i + 1);
    let close = past(i, block_from(lines, i + 1).1);
    if close < lines.len() {
        lemma_else_end(lines, close);
    }
}

proof fn lemma_else_end(lines: Seq<Seq<char>>, close: int)
    requires
        0 <= close <= lines.len(),
    ensures
        close <= else_from(lines, close).1 <= lines.len(),
    decreases left(lines, close), 0int,
{
    if close < lines.len() {
        lemma_block_end(lines, close + 1);
        let end = block_from(lines, close + 1).1;
        lemma_else_end(lines, past(close, end));
        if close + 1 < lines.len() {
            lemma_block_end(lines, close + 2);
            let end2 = block_from(lines, close + 2).1;
            lemma_else_end(lines, past(close, end2));
        }
    }
}

/// Parse the arms of a `match` from line `start` on. Returns the arms and the
/// index of the line that closes the `match`.
pub fn parse_match_arms(lines: &Vec<&str>, start: usize) -> (r: (Vec<MatchArm>, usize))
    requires
        start <= lines.len(),
    ensures
        arms_from(text::views(lines@), start as int) == (ast::arms_model(r.0@), r.1 as int),
        start <= r.1 <= lines.len(),
{
    let ghost all = text::views(lines@);
    let mut arms: Vec<MatchArm> = Vec::new();
    let mut i: usize = start;
    proof {
        lemma_arms_end(all, start as int);
        assert(ast::arms_model(arms@) + arms_from(all, start as int).0 =~= arms_from(
            all,
            start as int,
        ).0);
    }
    while i < lines.len()
        invariant
            start <= i <= lines.len(),
            all == text::views(lines@),
            ast::arms_model(arms@) + arms_from(all, i as int).0 == arms_from(all, start as int).0,
            arms_from(all, i as int).1 == arms_from(all, start as int).1,
        decreases lines.len() - i,
    {
        let t = text::trim(lines[i]);
        if text::starts_with_char(t, '}') {
            assert(ast::arms_model(arms@) + Seq::empty() =~= ast::arms_model(arms@));
            return (arms, i);
        }
        if t.unicode_len() == 0 {
            i += 1;
            continue;
        }
        let (joined, consumed) = gather_logical_line(lines, i);
        let ghost done = ast::arms_model(arms@);
        let ghost rest = arms_from(all, i + consumed).0;
        if let Some(arm) = statement::parse_match_arm(joined.as_str(), (i + 1) as u32) {
            proof {
                ast::lemma_arms_push(arms@, arm);
                assert(done + (seq![arm.model()] + rest) =~= done.push(arm.model()) + rest);
            }
            arms.push(arm);
        }
        i += consumed;
    }
    assert(ast::arms_model(arms@) + Seq::empty() =~= ast::arms_model(arms@));
    (arms, i)
}

/// Parse a block of statements from line `start` on. Returns the statements
/// and the index of the line that closes the block.
pub fn parse_block(lines: &Vec<&str>, start: usize) -> (r: (Vec<Statement>, usize))
    requires
        start <= lines.len(),
    ensures
        block_from(text::views(lines@), start as int) == (ast::block_model(r.0@), r.1 as int),
        start <= r.1 <= lines.len(),
    decreases lines.len() - start, 1int,
{
    let ghost all = text::views(lines@);
    let mut body: Vec<Statement> = Vec::new();
    let mut i: usize = start;
    proof {
        lemma_block_end(all, start as int);
        assert(ast::block_model(body@) + block_from(all, start as int).0 =~= block_from(
            all,
            start as int,
        ).0);
    }
    while i < lines.len()
        invariant
            start <= i <= lines.len(),
            all == text::views(lines@),
            ast::block_model(body@) + block_from(all, i as int).0 == block_from(
                all,
                start as int,
            ).0,
            block_from(all, i as int).1 == block_from(all, start as int).1,
        decreases lines.len() - i,
    {
        if text::starts_with_char(text::trim(lines[i]), '}') {
            assert(ast::block_model(body@) + Seq::empty() =~= ast::block_model(body@));
            return (body, i);
        }
        let (stmt, next) = parse_item(lines, i);
        let ghost done = ast::block_model(body@);
        let ghost rest = block_from(all, next as int).0;
        if let Some(stmt) = stmt {
            proof {
                ast::lemma_block_push(body@, stmt);
                assert(done + (seq![stmt.model()] + rest) =~= done.push(stmt.model()) + rest);
            }
            body.push(stmt);
        }
        i = next;
    }
    assert(ast::block_model(body@) + Seq::empty() =~= ast::block_model(body@));
    (body, i)
}

fn line_behind(lines: &Vec<&str>, i: usize) -> (r: usize)
    ensures
        r == next_line(text::views(lines@), i as int),
{
    if i < lines.len() {
        i + 1
    } else {
        lines.len()
    }
}

/// Parse the statement that begins at line `i`. Returns it and the index of
/// the line behind it.
fn parse_item(lines: &Vec<&str>, i: usize) -> (r: (Option<Statement>, usize))
    requires
        i < lines.len(),
    ensures
        item_at(text::views(lines@), i as int) == (ast::opt_stmt(r.0), r.1 as int),
        i < r.1 <= lines.len(),
    decreases lines.len() - i, 0int,
{
    let ghost all = text::views(lines@);
    proof {
        lemma_item_end(all, i as int);
    }
    let t = text::trim(lines[i]);
    let line: u32 = (i + 1) as u32;
    if let Some(cond) = strip_block_header(t, "if") {
        let (then_block, close) = parse_block(lines, i + 1);
        let (else_block, end) = parse_else_clauses(lines, close);
        let next = line_behind(lines, end);
        return (Some(Statement::If { cond, then_block, else_block, line }), next);
    }
    if let Some(cond) = strip_block_header(t, "while") {
        let (body, end) = parse_block(lines, i + 1);
        let next = line_behind(lines, end);
        return (Some(Statement::While { cond, body, line }), next);
    }
    if let Some(count_expr) = strip_block_header(t, "repeat") {
        let (body, end) = parse_block(lines, i + 1);
        let next = line_behind(lines, end);
        return (Some(Statement::Repeat { count_expr, body, line }), next);
    }
    if let Some(scrutinee) = strip_block_header(t, "match") {
        let (arms, end) = parse_match_arms(lines, i + 1);
        let next = line_behind(lines, end);
        return (Some(Statement::Match { scrutinee, arms, line }), next);
    }
    if text::str_eq(t, "do") || text::str_eq(t, "do {") {
        let (body, end) = parse_block(lines, i + 1);
        let cond = parse_until(get_line(lines, end));
        let next = line_behind(lines, end);
        return (Some(Statement::DoUntil { body, cond, line }), next);
    }
    let (joined, consumed) = gather_logical_line(lines, i);
    (statement::parse_statement(joined.as_str(), line), i + consumed)
}

/// Parse the `else` clauses behind the closing brace at line `close_idx`.
/// Returns the `else` block, empty where there is none, and the index of the
/// line that closes the whole.
pub fn parse_else_clauses(lines: &Vec<&str>, close_idx: usize) -> (r: (Vec<Statement>, usize))
    requires
        close_idx <= lines.len(),
    ensures
        else_from(text::views(lines@), close_idx as int) == (ast::block_model(r.0@), r.1 as int),
        close_idx <= r.1 <= lines.len(),
    decreases lines.len() - close_idx, 0int,
{
    let ghost all = text::views(lines@);
    proof {
        lemma_else_end(all, close_idx as int);
    }
    if close_idx >= lines.len() {
        return (Vec::new(), close_idx);
    }
    let t = get_line(lines, close_idx);
    if text::starts_with_char(t, '}') {
        let here = text::trim(text::tail(t, 1));
        if let Some(cond) = parse_else_if(here) {
            let (then_block, end) = parse_block(lines, close_idx + 1);
            let (else_block, last) = parse_else_clauses(lines, end);
            let line: u32 = (close_idx + 1) as u32;
            let chained = Statement::If { cond, then_block, else_block, line };
            return (one_statement(chained), last);
        }
        if text::str_eq(here, "else {") || text::str_eq(here, "else{") {
            return parse_block(lines, close_idx + 1);
        }
    }
    if close_idx + 1 < lines.len() {
        let below = get_line(lines, close_idx + 1);
        if let Some(cond) = parse_else_if(below) {
            let (then_block, end) = parse_block(lines, close_idx + 2);
            let (else_block, last) = parse_else_clauses(lines, end);
            let line: u32 = (close_idx + 2) as u32;
            let chained = Statement::If { cond, then_block, else_block, line };
            return (one_statement(chained), last);
        }
        if text::str_eq(below, "else {") || text::str_eq(below, "else{") {
            return parse_block(lines, close_idx + 2);
        }
    }
    (Vec::new(), close_idx)
}

fn one_statement(stmt: Statement) -> (r: Vec<Statement>)
    ensures
        ast::block_model(r@) == seq![stmt.model()],
{
    let mut r: Vec<Statement> = Vec::new();
    proof {
        ast::lemma_block_push(r@, stmt);
    }
    r.push(stmt);
    assert(ast::block_model(r@) =~= seq![stmt.model()]);
    r
}

} // verus!
