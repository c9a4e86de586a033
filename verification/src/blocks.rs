//! Blocks as they are written, line by line, and that parsing one gives back
//! what was written.

use vstd::prelude::*;

use crate::ast::{Arm, Stmt};
use crate::brackets;
use crate::expr;
use crate::parser;
use crate::statement;
use crate::text;

verus! {

/// A statement as it is written.
pub enum Node {
    Plain(Seq<char>),
    If { cond: Seq<char>, then_block: Seq<Node>, rest: Box<Else> },
    While { cond: Seq<char>, body: Seq<Node> },
    Repeat { count: Seq<char>, body: Seq<Node> },
    Until { body: Seq<Node>, cond: Seq<char> },
    Match { scrutinee: Seq<char>, arms: Seq<Seq<char>> },
}

/// What follows the first block of an `if`. It may stand on the line of the
/// closing brace or below it.
pub enum Else {
    Nothing,
    Block { below: bool, body: Seq<Node> },
    If { below: bool, cond: Seq<char>, then_block: Seq<Node>, rest: Box<Else> },
}

/// A line `keyword (cond) {`.
pub open spec fn header(keyword: Seq<char>, cond: Seq<char>) -> Seq<char> {
    keyword + " ("@ + cond + ") {"@
}

/// The lines of a statement.
pub open spec fn node_lines(n: Node) -> Seq<Seq<char>>
    decreases n,
{
    match n {
        Node::Plain(s) => seq![s],
        Node::If { cond, then_block, rest } => seq![header("if"@, cond)] + block_lines(then_block)
            + else_lines(*rest),
        Node::While { cond, body } => seq![header("while"@, cond)] + block_lines(body) + seq!["}"@],
        Node::Repeat { count, body } => seq![header("repeat"@, count)] + block_lines(body) + seq![
            "}"@,
        ],
        Node::Until { body, cond } => seq!["do {"@] + block_lines(body) + seq![
            "} until ("@ + cond + ");"@,
        ],
        Node::Match { scrutinee, arms } => seq![header("match"@, scrutinee)] + arms + seq!["}"@],
    }
}

/// The lines of a block.
pub open spec fn block_lines(ns: Seq<Node>) -> Seq<Seq<char>>
    decreases ns,
{
    if ns.len() == 0 {
        Seq::empty()
    } else {
        node_lines(ns[0]) + block_lines(ns.skip(1))
    }
}

/// The lines behind the first block of an `if`, from the closing brace on.
pub open spec fn else_lines(e: Else) -> Seq<Seq<char>>
    decreases e,
{
    match e {
        Else::Nothing => seq!["}"@],
        Else::Block { below, body } => else_head(below, "else {"@) + block_lines(body) + seq!["}"@],
        Else::If { below, cond, then_block, rest } => else_head(below, header("else if"@, cond))
            + block_lines(then_block) + else_lines(*rest),
    }
}

/// The closing brace and the line that begins an `else`.
pub open spec fn else_head(below: bool, head: Seq<char>) -> Seq<Seq<char>> {
    if below {
        seq!["}"@, head]
    } else {
        seq!["} "@ + head]
    }
}

/// A condition: without white space around it, its parentheses balanced.
pub open spec fn condition(s: Seq<char>) -> bool {
    text::trimmed(s) == s && expr::balanced(s)
}

/// A line of its own: not blank, without white space around it, its brackets
/// balanced, and no closing brace at its beginning.
pub open spec fn own_line(s: Seq<char>) -> bool {
    s.len() > 0 && text::trimmed(s) == s && brackets::depth(s) == 0 && s[0] != '}'
}

/// A line that begins no block and no `else`.
pub open spec fn plain_line(s: Seq<char>) -> bool {
    &&& own_line(s)
    &&& parser::block_header(s, "if"@) is None
    &&& parser::block_header(s, "while"@) is None
    &&& parser::block_header(s, "repeat"@) is None
    &&& parser::block_header(s, "match"@) is None
    &&& s != "do"@
    &&& s != "do {"@
    &&& !else_line(s)
}

/// A line that begins an `else`.
pub open spec fn else_line(s: Seq<char>) -> bool {
    parser::is_else(s) || parser::else_if_header(s) is Some
}

/// The statement can be written.
pub open spec fn node_fits(n: Node) -> bool
    decreases n,
{
    match n {
        Node::Plain(s) => plain_line(s),
        Node::If { cond, then_block, rest } => condition(cond) && block_fits(then_block)
            && else_fits(*rest),
        Node::While { cond, body } => condition(cond) && block_fits(body),
        Node::Repeat { count, body } => condition(count) && block_fits(body),
        Node::Until { body, cond } => condition(cond) && block_fits(body),
        Node::Match { scrutinee, arms } => condition(scrutinee) && forall|k: int|
            0 <= k < arms.len() ==> own_line(#[trigger] arms[k]),
    }
}

/// The statements of a block can be written.
pub open spec fn block_fits(ns: Seq<Node>) -> bool
    decreases ns,
{
    ns.len() > 0 ==> node_fits(ns[0]) && block_fits(ns.skip(1))
}

/// What follows the first block of an `if` can be written.
pub open spec fn else_fits(e: Else) -> bool
    decreases e,
{
    match e {
        Else::Nothing => true,
        Else::Block { body, .. } => block_fits(body),
        Else::If { cond, then_block, rest, .. } => condition(cond) && block_fits(then_block)
            && else_fits(*rest),
    }
}

/// The statement that is meant, its first line having the index `i`.
pub open spec fn node_meaning(n: Node, i: int) -> Option<Stmt>
    decreases n,
{
    let line = (i + 1) as u32;
    match n {
        Node::Plain(s) => statement::statement_of(s, line),
        Node::If { cond, then_block, rest } => Some(
            Stmt::If {
                cond,
                then_block: block_meaning(then_block, i + 1),
                else_block: else_meaning(*rest, i + 1 + block_lines(then_block).len()),
                line,
            },
        ),
        Node::While { cond, body } => Some(
            Stmt::While { cond, body: block_meaning(body, i + 1), line },
        ),
        Node::Repeat { count, body } => Some(
            Stmt::Repeat { count_expr: count, body: block_meaning(body, i + 1), line },
        ),
        Node::Until { body, cond } => Some(
            Stmt::DoUntil { body: block_meaning(body, i + 1), cond, line },
        ),
        Node::Match { scrutinee, arms } => Some(
            Stmt::Match { scrutinee, arms: arms_meaning(arms, i + 1), line },
        ),
    }
}

/// The statements that are meant, in order, the first line having the index
/// `i`.
pub open spec fn block_meaning(ns: Seq<Node>, i: int) -> Seq<Stmt>
    decreases ns,
{
    if ns.len() == 0 {
        Seq::empty()
    } else {
        let rest = block_meaning(ns.skip(1), i + node_lines(ns[0]).len());
        match node_meaning(ns[0], i) {
            Some(s) => seq![s] + rest,
            None => rest,
        }
    }
}

/// The `else` block that is meant, the closing brace standing at the index `i`:
/// an `else if` is a block of one `if`.
pub open spec fn else_meaning(e: Else, i: int) -> Seq<Stmt>
    decreases e,
{
    match e {
        Else::Nothing => Seq::empty(),
        Else::Block { below, body } => block_meaning(
            body,
            if below {
                i + 2
            } else {
                i + 1
            },
        ),
        Else::If { below, cond, then_block, rest } => {
            let first = if below {
                i + 2
            } else {
                i + 1
            };
            seq![
                Stmt::If {
                    cond,
                    then_block: block_meaning(then_block, first),
                    else_block: else_meaning(*rest, first + block_lines(then_block).len()),
                    line: first as u32,
                },
            ]
        },
    }
}

/// The arms that are meant, the first standing at the index `i`.
pub open spec fn arms_meaning(arms: Seq<Seq<char>>, i: int) -> Seq<Arm>
    decreases arms.len(),
{
    if arms.len() == 0 {
        Seq::empty()
    } else {
        let rest = arms_meaning(arms.skip(1), i + 1);
        match statement::arm_of(arms[0], (i + 1) as u32) {
            Some(arm) => seq![arm] + rest,
            None => rest,
        }
    }
}

/// From the index `i` on the lines are these, but for white space around them.
pub open spec fn stand_at(lines: Seq<Seq<char>>, i: int, expected: Seq<Seq<char>>) -> bool {
    &&& 0 <= i
    &&& i + expected.len() <= lines.len()
    &&& forall|k: int|
        0 <= k < expected.len() ==> text::trimmed(lines[i + k]) == #[trigger] expected[k]
}

pub proof fn lemma_stand_parts(
    lines: Seq<Seq<char>>,
    i: int,
    a: Seq<Seq<char>>,
    b: Seq<Seq<char>>,
)
    requires
        stand_at(lines, i, a + b),
    ensures
        stand_at(lines, i, a),
        stand_at(lines, i + a.len(), b),
{
    assert forall|k: int| 0 <= k < a.len() implies text::trimmed(lines[i + k]) == #[trigger] a[k] by {
        assert((a + b)[k] == a[k]);
    }
    assert forall|k: int| 0 <= k < b.len() implies text::trimmed(lines[i + a.len() + k])
        == #[trigger] b[k] by {
        assert((a + b)[a.len() + k] == b[k]);
    }
}

/// A text that begins with another character does not begin with the keyword.
pub proof fn lemma_other_start(s: Seq<char>, keyword: Seq<char>)
    requires
        s.len() > 0,
        keyword.len() > 0,
        s[0] != keyword[0],
    ensures
        text::after(s, keyword) is None,
{
    if keyword.is_prefix_of(s) {
        assert(s.subrange(0, keyword.len() as int)[0] == s[0]);
    }
}

/// The condition of a header is read back.
pub proof fn lemma_paren(cond: Seq<char>)
    requires
        condition(cond),
    ensures
        parser::paren_header("("@ + cond + ") {"@) == Some(cond),
{
    reveal_strlit("(");
    reveal_strlit(") {");
    reveal_strlit("{");
    let rest = cond + ") {"@;
    let n = cond.len() as int;
    assert("("@ + cond + ") {"@ =~= "("@ + rest);
    text::lemma_after("("@, rest);
    let q = brackets::closes_outer(rest);
    let close = seq![')'];
    assert(rest.take(n + 1) =~= cond + close);
    brackets::lemma_pair_add(cond, close, '(', ')');
    assert(close.drop_last() =~= Seq::empty());
    reveal_with_fuel(brackets::pair_depth, 2);
    assert(q(n));
    assert forall|j: int| 0 <= j < n implies !#[trigger] q(j) by {
        assert(rest.take(j + 1) =~= cond.take(j + 1));
        assert(brackets::pair_depth(cond.take(j + 1), '(', ')') >= 0);
    }
    text::lemma_first_is(0, rest.len() as int, q, n);
    assert(rest.take(n) =~= cond);
    assert(rest.skip(n + 1) =~= seq![' '] + "{"@);
    text::lemma_blank_before("{"@);
}

/// A header is read as its condition, and stands for itself.
proof fn lemma_header(keyword: Seq<char>, cond: Seq<char>)
    requires
        condition(cond),
        keyword.len() > 0,
        !text::white(keyword[0]),
    ensures
        ({
            let s = header(keyword, cond);
            &&& s.len() > 0
            &&& s[0] == keyword[0]
            &&& text::trimmed(s) == s
            &&& parser::block_header(s, keyword) == Some(cond)
            &&& text::after(s, keyword) is Some
            &&& parser::paren_header(text::trimmed(text::after(s, keyword)->0)) == Some(cond)
        }),
{
    reveal_strlit(" (");
    reveal_strlit("(");
    reveal_strlit(") {");
    let s = header(keyword, cond);
    let rest = " ("@ + cond + ") {"@;
    let inner = "("@ + cond + ") {"@;
    assert(s =~= keyword + rest);
    text::lemma_after(keyword, rest);
    assert(s[0] == keyword[0]);
    assert(s.last() == '{');
    text::lemma_trimmed_already(s);
    assert(rest =~= seq![' '] + inner);
    assert(inner[0] == '(');
    assert(inner.last() == '{');
    text::lemma_blank_before(inner);
    assert(rest.skip(1) =~= inner);
    reveal_with_fuel(text::ltrim, 2);
    lemma_paren(cond);
}

/// The condition behind a `do` block is read back.
proof fn lemma_until(cond: Seq<char>)
    requires
        condition(cond),
    ensures
        ({
            let s = "} until ("@ + cond + ");"@;
            &&& s.len() > 0
            &&& s[0] == '}'
            &&& text::trimmed(s) == s
            &&& parser::until_condition(s) == cond
        }),
{
    reveal_strlit("} until (");
    reveal_strlit("until");
    reveal_strlit("(");
    reveal_strlit(");");
    let s = "} until ("@ + cond + ");"@;
    let inner = cond + ");"@;
    let open = "("@ + inner;
    let rest = seq![' '] + open;
    let t = "until"@ + rest;
    assert(s[0] == '}');
    assert(s.last() == ';');
    text::lemma_trimmed_already(s);
    assert(s.skip(1) =~= seq![' '] + t);
    assert(t[0] == 'u');
    assert(t.last() == ';');
    text::lemma_blank_before(t);
    text::lemma_after("until"@, rest);
    assert(open[0] == '(');
    assert(open.last() == ';');
    text::lemma_blank_before(open);
    text::lemma_after("("@, inner);
    let q = text::is_at(inner, ')');
    text::lemma_last_below(inner.len() as int, q);
    let n = cond.len() as int;
    assert(q(n));
    assert(inner[n + 1] == ';');
    assert(inner.take(n) =~= cond);
}

/// A closing brace alone.
proof fn lemma_brace()
    ensures
        "}"@.len() == 1,
        "}"@[0] == '}',
        text::trimmed("}"@) == "}"@,
{
    reveal_strlit("}");
    text::lemma_trimmed_already("}"@);
}

/// The block that begins behind a header ends where it was written to end.
spec fn block_read(lines: Seq<Seq<char>>, ns: Seq<Node>, i: int) -> bool {
    parser::block_from(lines, i) == (block_meaning(ns, i), i + block_lines(ns).len())
}

/// A line that closes a block.
spec fn closes(lines: Seq<Seq<char>>, i: int) -> bool {
    let t = parser::line_at(lines, i);
    i >= lines.len() || (t.len() > 0 && t[0] == '}')
}

/// The first line of what is written.
pub proof fn lemma_first_line(lines: Seq<Seq<char>>, i: int, first: Seq<char>, rest: Seq<Seq<char>>)
    requires
        stand_at(lines, i, seq![first] + rest),
    ensures
        i < lines.len(),
        parser::line_at(lines, i) == first,
        stand_at(lines, i + 1, rest),
{
    lemma_stand_parts(lines, i, seq![first], rest);
    assert(seq![first][0] == first);
    assert(text::trimmed(lines[i + 0]) == first);
}

proof fn lemma_arms(lines: Seq<Seq<char>>, arms: Seq<Seq<char>>, i: int)
    requires
        forall|k: int| 0 <= k < arms.len() ==> own_line(#[trigger] arms[k]),
        stand_at(lines, i, arms),
        closes(lines, i + arms.len()),
    ensures
        parser::arms_from(lines, i) == (arms_meaning(arms, i), i + arms.len()),
    decreases arms.len(),
{
    if arms.len() > 0 {
        let rest = arms.skip(1);
        assert(own_line(arms[0]));
        assert(seq![arms[0]] + rest =~= arms);
        lemma_first_line(lines, i, arms[0], rest);
        assert forall|k: int| 0 <= k < rest.len() implies own_line(#[trigger] rest[k]) by {
            assert(rest[k] == arms[k + 1]);
        }
        lemma_arms(lines, rest, i + 1);
    }
}

/// A statement and the line behind it.
spec fn node_read(lines: Seq<Seq<char>>, n: Node, i: int) -> bool {
    parser::item_at(lines, i) == (node_meaning(n, i), i + node_lines(n).len())
}

/// The first line of a statement begins no `else` and closes no block.
proof fn lemma_node_starts(n: Node)
    requires
        node_fits(n),
    ensures
        node_lines(n).len() > 0,
        node_lines(n)[0].len() > 0,
        node_lines(n)[0][0] != '}',
        !else_line(node_lines(n)[0]),
{
    reveal_strlit("if");
    reveal_strlit("while");
    reveal_strlit("repeat");
    reveal_strlit("match");
    reveal_strlit("do {");
    reveal_strlit("else {");
    reveal_strlit("else{");
    reveal_strlit("else if");
    reveal_strlit("else  if");
    let s = node_lines(n)[0];
    match n {
        Node::Plain(_) => {},
        Node::If { cond, .. } => {
            lemma_header("if"@, cond);
        },
        Node::While { cond, .. } => {
            lemma_header("while"@, cond);
        },
        Node::Repeat { count, .. } => {
            lemma_header("repeat"@, count);
        },
        Node::Match { scrutinee, .. } => {
            lemma_header("match"@, scrutinee);
        },
        Node::Until { .. } => {},
    }
    if !(n is Plain) {
        lemma_other_start(s, "else if"@);
        lemma_other_start(s, "else  if"@);
        assert("else {"@[0] == 'e');
        assert("else{"@[0] == 'e');
    }
}

proof fn lemma_block(lines: Seq<Seq<char>>, ns: Seq<Node>, i: int)
    requires
        block_fits(ns),
        stand_at(lines, i, block_lines(ns)),
        closes(lines, i + block_lines(ns).len()),
    ensures
        block_read(lines, ns, i),
    decreases ns, 1int,
{
    if ns.len() > 0 {
        let n = ns[0];
        let rest = ns.skip(1);
        let here = node_lines(n);
        let behind = i + here.len();
        lemma_stand_parts(lines, i, here, block_lines(rest));
        lemma_node_starts(n);
        assert(text::trimmed(lines[i + 0]) == here[0]);
        assert(parser::line_at(lines, i) == here[0]);
        if rest.len() > 0 {
            assert(block_fits(rest) && node_fits(rest[0])) by {
                reveal_with_fuel(block_fits, 3);
            }
            assert(block_lines(rest) == node_lines(rest[0]) + block_lines(rest.skip(1))) by {
                reveal_with_fuel(block_lines, 3);
            }
            lemma_node_starts(rest[0]);
            lemma_stand_parts(lines, behind, node_lines(rest[0]), block_lines(rest.skip(1)));
            assert(text::trimmed(lines[behind + 0]) == node_lines(rest[0])[0]);
        } else {
            lemma_closes_no_else(lines, behind);
        }
        assert(!else_line(parser::line_at(lines, behind)));
        lemma_node(lines, n, i);
        lemma_block(lines, rest, behind);
        assert(i + block_lines(ns).len() == behind + block_lines(rest).len());
    }
}

/// A line that closes a block begins no `else`.
proof fn lemma_closes_no_else(lines: Seq<Seq<char>>, i: int)
    requires
        0 <= i,
        closes(lines, i),
    ensures
        !else_line(parser::line_at(lines, i)),
{
    reveal_strlit("else {");
    reveal_strlit("else{");
    reveal_strlit("else if");
    reveal_strlit("else  if");
    let s = parser::line_at(lines, i);
    if i < lines.len() {
        lemma_other_start(s, "else if"@);
        lemma_other_start(s, "else  if"@);
        assert("else {"@[0] == 'e');
        assert("else{"@[0] == 'e');
    } else {
        assert("else {"@.len() == 6);
        assert("else{"@.len() == 5);
        assert(!"else if"@.is_prefix_of(s));
        assert(!"else  if"@.is_prefix_of(s));
    }
}

#[verifier::spinoff_prover]
#[verifier::rlimit(60)]
proof fn lemma_node(lines: Seq<Seq<char>>, n: Node, i: int)
    requires
        node_fits(n),
        stand_at(lines, i, node_lines(n)),
        !else_line(parser::line_at(lines, i + node_lines(n).len())),
    ensures
        node_read(lines, n, i),
    decreases n, 0int,
{
    reveal_strlit("if");
    reveal_strlit("while");
    reveal_strlit("repeat");
    reveal_strlit("match");
    reveal_strlit("do");
    reveal_strlit("do {");
    lemma_brace();
    let t = parser::line_at(lines, i);
    match n {
        Node::Plain(s) => {
            lemma_first_line(lines, i, s, Seq::empty());
            assert(seq![s] + Seq::<Seq<char>>::empty() =~= seq![s]);
            assert(parser::gathered(lines, s, i + 1) == (s, i + 1));
        },
        Node::If { cond, then_block, rest } => {
            let body = block_lines(then_block);
            let tail = else_lines(*rest);
            assert(node_lines(n) =~= seq![header("if"@, cond)] + (body + tail));
            lemma_first_line(lines, i, header("if"@, cond), body + tail);
            lemma_stand_parts(lines, i + 1, body, tail);
            lemma_header("if"@, cond);
            lemma_else_starts(*rest);
            let close = i + 1 + body.len();
            assert(text::trimmed(lines[close + 0]) == tail[0]);
            lemma_block(lines, then_block, i + 1);
            lemma_else(lines, *rest, close);
        },
        Node::While { cond, body } => {
            let inner = block_lines(body);
            assert(node_lines(n) =~= seq![header("while"@, cond)] + (inner + seq!["}"@]));
            lemma_first_line(lines, i, header("while"@, cond), inner + seq!["}"@]);
            lemma_stand_parts(lines, i + 1, inner, seq!["}"@]);
            lemma_header("while"@, cond);
            lemma_other_start(t, "if"@);
            assert(seq!["}"@][0] == "}"@);
            assert(text::trimmed(lines[i + 1 + inner.len() + 0]) == "}"@);
            lemma_block(lines, body, i + 1);
        },
        Node::Repeat { count, body } => {
            let inner = block_lines(body);
            assert(node_lines(n) =~= seq![header("repeat"@, count)] + (inner + seq!["}"@]));
            lemma_first_line(lines, i, header("repeat"@, count), inner + seq!["}"@]);
            lemma_stand_parts(lines, i + 1, inner, seq!["}"@]);
            lemma_header("repeat"@, count);
            lemma_other_start(t, "if"@);
            lemma_other_start(t, "while"@);
            assert(seq!["}"@][0] == "}"@);
            assert(text::trimmed(lines[i + 1 + inner.len() + 0]) == "}"@);
            lemma_block(lines, body, i + 1);
        },
        Node::Until { body, cond } => {
            let inner = block_lines(body);
            let last = "} until ("@ + cond + ");"@;
            assert(node_lines(n) =~= seq!["do {"@] + (inner + seq![last]));
            lemma_first_line(lines, i, "do {"@, inner + seq![last]);
            lemma_stand_parts(lines, i + 1, inner, seq![last]);
            lemma_until(cond);
            lemma_other_start(t, "if"@);
            lemma_other_start(t, "while"@);
            lemma_other_start(t, "repeat"@);
            lemma_other_start(t, "match"@);
            assert(seq![last][0] == last);
            assert(text::trimmed(lines[i + 1 + inner.len() + 0]) == last);
            lemma_block(lines, body, i + 1);
        },
        Node::Match { scrutinee, arms } => {
            assert(node_lines(n) =~= seq![header("match"@, scrutinee)] + (arms + seq!["}"@]));
            lemma_first_line(lines, i, header("match"@, scrutinee), arms + seq!["}"@]);
            lemma_stand_parts(lines, i + 1, arms, seq!["}"@]);
            lemma_header("match"@, scrutinee);
            lemma_other_start(t, "if"@);
            lemma_other_start(t, "while"@);
            lemma_other_start(t, "repeat"@);
            assert(seq!["}"@][0] == "}"@);
            assert(text::trimmed(lines[i + 1 + arms.len() + 0]) == "}"@);
            lemma_arms(lines, arms, i + 1);
        },
    }
}

/// What follows the first block of an `if` begins with the closing brace.
proof fn lemma_else_starts(e: Else)
    ensures
        else_lines(e).len() > 0,
        else_lines(e)[0].len() > 0,
        else_lines(e)[0][0] == '}',
{
    reveal_strlit("}");
    reveal_strlit("} ");
}

/// The lines of an `else` are read to the line that closes the whole.
#[verifier::spinoff_prover]
#[verifier::rlimit(40)]
proof fn lemma_else(lines: Seq<Seq<char>>, e: Else, close: int)
    requires
        else_fits(e),
        stand_at(lines, close, else_lines(e)),
        !else_line(parser::line_at(lines, close + else_lines(e).len())),
    ensures
        parser::else_from(lines, close) == (
            else_meaning(e, close),
            close + else_lines(e).len() - 1,
        ),
    decreases e, 0int,
{
    reveal_strlit("}");
    reveal_strlit("} ");
    reveal_strlit("else {");
    reveal_strlit("else if");
    lemma_brace();
    match e {
        Else::Nothing => {
            assert(text::trimmed(lines[close + 0]) == seq!["}"@][0]);
            assert("}"@.skip(1) =~= Seq::empty());
            text::lemma_trimmed_already("}"@.skip(1));
            lemma_blank_is_no_else();
        },
        Else::Block { below, body } => {
            let inner = block_lines(body);
            let head = else_head(below, "else {"@);
            lemma_stand_parts(lines, close, head + inner, seq!["}"@]);
            lemma_stand_parts(lines, close, head, inner);
            assert("else {"@[0] == 'e');
            lemma_else_head(lines, below, "else {"@, close);
            let last = close + head.len() + inner.len();
            assert(seq!["}"@][0] == "}"@);
            assert(text::trimmed(lines[last + 0]) == "}"@);
            lemma_else_is_no_else_if();
            lemma_block(lines, body, close + head.len());
        },
        Else::If { below, cond, then_block, rest } => {
            let inner = block_lines(then_block);
            let line = header("else if"@, cond);
            let head = else_head(below, line);
            lemma_header("else if"@, cond);
            lemma_stand_parts(lines, close, head + inner, else_lines(*rest));
            lemma_stand_parts(lines, close, head, inner);
            lemma_else_head(lines, below, line, close);
            let last = close + head.len() + inner.len();
            lemma_else_starts(*rest);
            assert(text::trimmed(lines[last + 0]) == else_lines(*rest)[0]);
            lemma_block(lines, then_block, close + head.len());
            lemma_else(lines, *rest, last);
            assert(parser::else_if_header(line) == Some(cond));
        },
    }
}

/// An empty text begins no `else`.
proof fn lemma_blank_is_no_else()
    ensures
        !else_line(Seq::empty()),
{
    reveal_strlit("else {");
    reveal_strlit("else{");
    reveal_strlit("else if");
    reveal_strlit("else  if");
    let s = Seq::<char>::empty();
    assert("else {"@.len() == 6);
    assert("else{"@.len() == 5);
    assert(!"else if"@.is_prefix_of(s));
    assert(!"else  if"@.is_prefix_of(s));
}

/// A plain `else` has no condition.
proof fn lemma_else_is_no_else_if()
    ensures
        parser::is_else("else {"@),
        parser::else_if_header("else {"@) is None,
{
    reveal_strlit("else {");
    reveal_strlit("else if");
    reveal_strlit("else  if");
    let s = "else {"@;
    if "else if"@.is_prefix_of(s) {
        assert("else if"@.len() == 7);
    }
    if "else  if"@.is_prefix_of(s) {
        assert("else  if"@.len() == 8);
    }
}

/// The line of an `else`, beside the closing brace or below it.
proof fn lemma_else_head(lines: Seq<Seq<char>>, below: bool, head: Seq<char>, close: int)
    requires
        stand_at(lines, close, else_head(below, head)),
        head.len() > 0,
        text::trimmed(head) == head,
        head[0] == 'e',
    ensures
        ({
            let t = parser::line_at(lines, close);
            &&& close < lines.len()
            &&& t.len() > 0 && t[0] == '}'
            &&& !below ==> text::trimmed(t.skip(1)) == head
            &&& below ==> !else_line(text::trimmed(t.skip(1)))
            &&& below ==> close + 1 < lines.len() && parser::line_at(lines, close + 1) == head
        }),
{
    reveal_strlit("}");
    reveal_strlit("} ");
    text::lemma_trimmed_ends(head);
    if below {
        assert(text::trimmed(lines[close + 0]) == else_head(below, head)[0]);
        assert(text::trimmed(lines[close + 1]) == else_head(below, head)[1]);
        assert("}"@.skip(1) =~= Seq::empty());
        text::lemma_trimmed_already("}"@.skip(1));
        lemma_blank_is_no_else();
    } else {
        let t = "} "@ + head;
        assert(text::trimmed(lines[close + 0]) == else_head(below, head)[0]);
        assert(t.skip(1) =~= seq![' '] + head);
        text::lemma_blank_before(head);
    }
}

/// A block is read as it was written: lines that write statements, however they
/// are indented, are parsed to these statements, nested as they were written
/// and in their order, each with the number of its line, up to the line that
/// closes the block.
pub proof fn law_block_is_read_back(lines: Seq<Seq<char>>, ns: Seq<Node>, i: int)
    requires
        block_fits(ns),
        stand_at(lines, i, block_lines(ns)),
        i + block_lines(ns).len() == lines.len() || ({
            let t = text::trimmed(lines[i + block_lines(ns).len()]);
            t.len() > 0 && t[0] == '}'
        }),
    ensures
        parser::block_from(lines, i) == (block_meaning(ns, i), i + block_lines(ns).len()),
{
    lemma_block(lines, ns, i);
}

} // verus!
