//! That the layout of a source does not change what it says.

use vstd::prelude::*;

use crate::blocks;
use crate::brackets;
use crate::parser;
use crate::statement;
use crate::text;

verus! {

/// The lines of a statement on one line, with a blank in place of each break.
pub open spec fn on_one_line(parts: Seq<Seq<char>>) -> Seq<char>
    decreases parts.len(),
{
    if parts.len() == 0 {
        Seq::empty()
    } else if parts.len() == 1 {
        parts[0]
    } else {
        on_one_line(parts.drop_last()) + seq![' '] + parts.last()
    }
}

/// The lines hold one statement: its brackets are open at the end of each but
/// the last.
pub open spec fn broken(parts: Seq<Seq<char>>) -> bool {
    &&& parts.len() > 0
    &&& forall|k: int|
        0 < k < parts.len() ==> brackets::depth(#[trigger] on_one_line(parts.take(k))) > 0
    &&& brackets::depth(on_one_line(parts)) == 0
}

proof fn lemma_gathers(lines: Seq<Seq<char>>, i: int, parts: Seq<Seq<char>>, k: int)
    requires
        broken(parts),
        0 <= i,
        i + parts.len() <= lines.len(),
        forall|j: int|
            0 <= j < parts.len() ==> text::trimmed(#[trigger] lines[i + j]) == parts[j],
        0 < k <= parts.len(),
    ensures
        parser::gathered(lines, on_one_line(parts.take(k)), i + k) == (
            on_one_line(parts),
            i + parts.len(),
        ),
    decreases parts.len() - k,
{
    reveal_strlit(" ");
    let so_far = on_one_line(parts.take(k));
    if k == parts.len() {
        assert(parts.take(k) =~= parts);
    } else {
        assert(brackets::depth(so_far) > 0);
        let more = parts.take(k + 1);
        assert(more.drop_last() =~= parts.take(k));
        assert(text::trimmed(lines[i + k]) == parts[k]);
        assert(" "@ =~= seq![' ']);
        assert(so_far + " "@ + parts[k] == on_one_line(more));
        lemma_gathers(lines, i, parts, k + 1);
    }
}

/// A statement that is broken over several lines is read as it would be on one
/// line, and reading goes on behind the last of them.
pub proof fn law_broken_statement_is_joined(lines: Seq<Seq<char>>, i: int, parts: Seq<Seq<char>>)
    requires
        broken(parts),
        0 <= i,
        i + parts.len() <= lines.len(),
        forall|j: int|
            0 <= j < parts.len() ==> text::trimmed(#[trigger] lines[i + j]) == parts[j],
    ensures
        parser::logical_line(lines, i) == (on_one_line(parts), i + parts.len()),
{
    assert(text::trimmed(lines[i + 0]) == parts[0]);
    assert(parts.take(1) =~= seq![parts[0]]);
    assert(on_one_line(parts.take(1)) == parts[0]);
    lemma_gathers(lines, i, parts, 1);
}

/// The line is blank.
pub open spec fn blank(s: Seq<char>) -> bool {
    text::trimmed(s).len() == 0
}

/// A blank line in a block does not count.
pub proof fn law_blank_line_does_not_count(lines: Seq<Seq<char>>, i: int)
    requires
        0 <= i < lines.len(),
        blank(lines[i]),
    ensures
        parser::block_from(lines, i) == parser::block_from(lines, i + 1),
        parser::arms_from(lines, i) == parser::arms_from(lines, i + 1),
{
    reveal_strlit("if");
    reveal_strlit("while");
    reveal_strlit("repeat");
    reveal_strlit("match");
    reveal_strlit("do");
    reveal_strlit("do {");
    let t = parser::line_at(lines, i);
    assert(t =~= Seq::empty());
    lemma_empty();
    assert(parser::logical_line(lines, i) == (t, i + 1));
    let (stmt, next) = parser::item_at(lines, i);
    assert(stmt is None && next == i + 1);
    let (rest, end) = parser::block_from(lines, i + 1);
    assert(parser::block_from(lines, i) == (rest, end));
}

/// An empty text is no statement.
proof fn lemma_empty()
    ensures
        forall|line: u32| statement::statement_of(Seq::empty(), line) is None,
        brackets::depth(Seq::empty()) == 0,
{
    reveal_strlit("var ");
    reveal_strlit("val ");
    reveal_strlit("return");
    reveal_strlit("return ");
    reveal_strlit("throw ");
    reveal_strlit("throwIf(");
    reveal_strlit("throwIf (");
    reveal_strlit("throwUnless(");
    reveal_strlit("throwUnless (");
    reveal_strlit("assert(");
    reveal_strlit("assert (");
    let e = Seq::<char>::empty();
    text::lemma_trimmed_already(e);
    assert("return"@.len() == 6);
    text::lemma_first_from(0, 0, statement::compound_at(e));
    text::lemma_first_from(0, 0, brackets::assign_at(e));
}

/// The blank between a keyword and its condition may be left out.
pub proof fn law_header_needs_no_blank(keyword: Seq<char>, cond: Seq<char>)
    requires
        blocks::condition(cond),
        keyword.len() > 0,
    ensures
        parser::block_header(keyword + "("@ + cond + ") {"@, keyword) == Some(cond),
        parser::block_header(keyword + " ("@ + cond + ") {"@, keyword) == Some(cond),
{
    reveal_strlit(" (");
    reveal_strlit("(");
    reveal_strlit(") {");
    let inner = "("@ + cond + ") {"@;
    assert(keyword + "("@ + cond + ") {"@ =~= keyword + inner);
    text::lemma_after(keyword, inner);
    assert(inner[0] == '(');
    blocks::lemma_paren(cond);
    let padded = seq![' '] + inner;
    assert(keyword + " ("@ + cond + ") {"@ =~= keyword + padded);
    text::lemma_after(keyword, padded);
    assert(padded.skip(1) =~= inner);
    reveal_with_fuel(text::ltrim, 2);
}

/// A line that begins with another word is no header of the keyword.
pub proof fn law_header_begins_with_its_keyword(s: Seq<char>, keyword: Seq<char>)
    requires
        !keyword.is_prefix_of(s),
    ensures
        parser::block_header(s, keyword) is None,
{
}

/// The blank before the brace of an `else` may be left out, and so may the line
/// break before it: the block is the same.
pub proof fn law_else_may_stand_anywhere(lines: Seq<Seq<char>>, close: int)
    requires
        0 <= close < lines.len(),
    ensures
        ({
            let t = parser::line_at(lines, close);
            let below = parser::line_at(lines, close + 1);
            &&& t == "} else {"@ || t == "} else{"@ || t == "}else {"@ || t == "}else{"@
                ==> parser::else_from(lines, close) == parser::block_from(lines, close + 1)
            &&& t == "}"@ && close + 1 < lines.len() && (below == "else {"@ || below == "else{"@)
                ==> parser::else_from(lines, close) == parser::block_from(lines, close + 2)
        }),
{
    reveal_strlit("} else {");
    reveal_strlit("} else{");
    reveal_strlit("}else {");
    reveal_strlit("}else{");
    reveal_strlit("}");
    reveal_strlit("else {");
    reveal_strlit("else{");
    let t = parser::line_at(lines, close);
    let below = parser::line_at(lines, close + 1);
    lemma_plain_else();
    text::lemma_trimmed_already("else {"@);
    text::lemma_trimmed_already("else{"@);
    text::lemma_blank_before("else {"@);
    text::lemma_blank_before("else{"@);
    if t == "} else {"@ {
        assert(t.skip(1) =~= seq![' '] + "else {"@);
    } else if t == "} else{"@ {
        assert(t.skip(1) =~= seq![' '] + "else{"@);
    } else if t == "}else {"@ {
        assert(t.skip(1) =~= "else {"@);
    } else if t == "}else{"@ {
        assert(t.skip(1) =~= "else{"@);
    } else if t == "}"@ {
        assert(t.skip(1) =~= Seq::empty());
        text::lemma_trimmed_already(Seq::empty());
    }
}

/// A plain `else` is no `else if`.
proof fn lemma_plain_else()
    ensures
        parser::else_if_header("else {"@) is None,
        parser::else_if_header("else{"@) is None,
        parser::else_if_header(Seq::empty()) is None,
        !parser::is_else(Seq::empty()),
{
    reveal_strlit("else {");
    reveal_strlit("else{");
    reveal_strlit("else if");
    reveal_strlit("else  if");
    assert("else {"@.len() == 6);
    assert("else{"@.len() == 5);
    assert("else if"@.len() == 7);
    assert("else  if"@.len() == 8);
}

} // verus!
