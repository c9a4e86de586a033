//! Texts that begin and end like a form but do not have it.

use vstd::prelude::*;

use crate::brackets;
use crate::chars;
use crate::grammar;
use crate::sources;
use crate::syntax;
use crate::text;

verus! {

/// Two texts in parentheses with something between them are not one tuple.
pub proof fn law_two_tuples_are_not_one(a: Seq<char>, between: Seq<char>, b: Seq<char>)
    requires
        brackets::depth(a) == 0,
    ensures
        syntax::tuple_shape("("@ + a + ")"@ + between + "("@ + b + ")"@) is None,
{
    reveal_strlit("(");
    reveal_strlit(")");
    let t = "("@ + a + ")"@ + between + "("@ + b + ")"@;
    let n = a.len() as int + 1;
    assert(t[0] == '(');
    assert(t.last() == ')');
    text::lemma_trimmed_already(t);
    let open = seq!['('];
    let close = seq![')'];
    assert(open.drop_last() =~= Seq::empty());
    assert(close.drop_last() =~= Seq::empty());
    reveal_with_fuel(brackets::depth, 2);
    assert(t.take(n + 1) =~= open + a + close);
    brackets::lemma_depth_add(open, a);
    brackets::lemma_depth_add(open + a, close);
    assert(t[n] == ')');
    assert(brackets::step(t[n]) == -1);
    assert(syntax::closes_early(t));
}

/// An expression in parentheses is no tuple, and neither are empty parentheses.
pub proof fn law_parentheses_are_no_tuple(item: Seq<char>)
    requires
        grammar::list_item(item),
    ensures
        syntax::tuple_shape("("@ + item + ")"@) is None,
        syntax::tuple_shape("()"@) is None,
{
    reveal_strlit("(");
    reveal_strlit(")");
    reveal_strlit("()");
    let t = "("@ + item + ")"@;
    assert(t[0] == '(');
    assert(t.last() == ')');
    text::lemma_trimmed_already(t);
    let one = seq![item];
    grammar::law_list_is_split_into_its_items(one);
    assert(grammar::list_text(one) =~= item);
    assert(t.subrange(1, t.len() - 1) =~= item);
    let e = "()"@;
    assert(e[0] == '(');
    assert(e.last() == ')');
    text::lemma_trimmed_already(e);
    let none = Seq::<Seq<char>>::empty();
    grammar::law_list_is_split_into_its_items(none);
    assert(grammar::list_text(none) =~= Seq::empty());
    assert(e.subrange(1, e.len() - 1) =~= Seq::empty());
}

/// Two calls with something between them are not one call.
pub proof fn law_two_calls_are_not_one(
    name: Seq<char>,
    a: Seq<char>,
    between: Seq<char>,
    args: Seq<Seq<char>>,
)
    requires
        syntax::ascii_name(name),
        between.len() > 0,
        !text::white(between.last()),
        between.last() != '>',
        forall|i: int| 0 <= i < args.len() ==> grammar::list_item(#[trigger] args[i]),
    ensures
        syntax::call_shape(
            name + "("@ + a + ")"@ + between + "("@ + grammar::list_text(args) + ")"@,
        ) is None,
{
    reveal_strlit("(");
    reveal_strlit(")");
    let head = name + "("@ + a + ")"@ + between;
    let t = head + "("@ + grammar::list_text(args) + ")"@;
    let n = name.len() as int;
    assert(chars::ascii_word(name[0]));
    lemma_word_is_black(name[0]);
    assert(t[0] == name[0]);
    assert(t.last() == ')');
    text::lemma_trimmed_already(t);
    grammar::lemma_opener_of_list(head, args);
    assert(t.take(head.len() as int) =~= head);
    assert(head[0] == name[0]);
    assert(head.last() == between.last());
    text::lemma_trimmed_already(head);
    assert(syntax::bare_name(head) == head);
    assert(head[n] == '(');
    assert(!chars::ascii_word(head[n]));
}

proof fn lemma_word_is_black(c: char)
    requires
        chars::ascii_word(c),
    ensures
        !text::white(c),
{
    assert(c <= 0x10_ffff);
    assert(c as u32 == c as int);
}

/// A call without arguments is read as its name, and a text that does not end
/// with empty parentheses is none.
pub proof fn law_nullary_call_is_read_back(name: Seq<char>, s: Seq<char>)
    requires
        syntax::ascii_name(name),
        text::trimmed(s) == s,
        s.len() < 2 || s[s.len() - 2] != '(' || s.last() != ')',
    ensures
        syntax::nullary_call(name + "()"@) == Some(name),
        syntax::nullary_call(s) is None,
{
    reveal_strlit("()");
    let t = name + "()"@;
    assert(chars::ascii_word(name[0]));
    assert(chars::ascii_word(name[name.len() - 1]));
    lemma_word_is_black(name[0]);
    lemma_word_is_black(name.last());
    text::lemma_trimmed_already(name);
    assert(t[0] == name[0]);
    assert(t.last() == ')');
    text::lemma_trimmed_already(t);
    text::lemma_before(name, "()"@);
    assert forall|i: int| 0 <= i < name.len() implies chars::word(#[trigger] name[i]) by {
        syntax::lemma_ascii_is_word(name[i]);
    }
    if "()"@.is_suffix_of(s) {
        let end = s.subrange(s.len() - 2, s.len() as int);
        assert(end == "()"@);
        assert(end[0] == s[s.len() - 2]);
        assert(end[1] == s.last());
    }
}

/// A name with a small initial before braces begins no struct literal.
pub proof fn law_struct_has_a_capital_initial(name: Seq<char>, rest: Seq<char>)
    requires
        grammar::plain_name(name),
        'a' <= name[0] <= 'z',
    ensures
        syntax::struct_shape(name + " {"@ + rest + "}"@) is None,
{
    reveal_strlit(" {");
    reveal_strlit("}");
    let t = name + " {"@ + rest + "}"@;
    let n = name.len() as int;
    text::lemma_trimmed_ends(name);
    sources::lemma_name_lacks(name, '{');
    sources::lemma_name_lacks(name, '>');
    assert(t[0] == name[0]);
    assert(t.last() == '}');
    text::lemma_trimmed_already(t);
    let front = name + seq![' '];
    assert(t =~= front + seq!['{'] + (rest + "}"@));
    assert forall|i: int| 0 <= i < front.len() implies #[trigger] front[i] != '{' by {
        if i < n {
            assert(front[i] == name[i]);
        }
    }
    sources::lemma_find(front, '{', rest + "}"@);
    text::lemma_blank_behind(name);
    assert(name.last() == name[n - 1]);
    lemma_small(name[0]);
}

proof fn lemma_small(c: char)
    requires
        'a' <= c <= 'z',
    ensures
        !chars::capital(c),
{
    assert(c as u32 == c as int);
}

/// A call of a method behind a bracket that is not closed is none.
pub proof fn law_method_in_open_bracket_is_none(
    open: char,
    receiver: Seq<char>,
    method: Seq<char>,
    args: Seq<Seq<char>>,
)
    requires
        open == '(' || open == '[' || open == '{',
        brackets::depth(receiver) == 0,
        grammar::plain_name(method),
        forall|i: int| 0 <= i < args.len() ==> grammar::list_item(#[trigger] args[i]),
    ensures
        syntax::method_shape(
            seq![open] + receiver + "."@ + method + "("@ + grammar::list_text(args) + ")"@,
        ) is None,
{
    reveal_strlit(".");
    reveal_strlit("(");
    reveal_strlit(")");
    let front = seq![open] + receiver;
    let head = front + "."@ + method;
    let t = head + "("@ + grammar::list_text(args) + ")"@;
    assert(t[0] == open);
    assert(t.last() == ')');
    text::lemma_trimmed_already(t);
    grammar::lemma_opener_of_list(head, args);
    assert(t.take(head.len() as int) =~= head);
    text::lemma_trimmed_ends(method);
    assert(head.last() == method.last());
    assert(text::rtrim(head) == head);
    let dot = front.len() as int;
    let q = text::is_at(head, '.');
    sources::lemma_name_lacks(method, '.');
    assert(head[dot] == '.');
    assert(q(dot));
    text::lemma_last_below(head.len() as int, q);
    assert forall|j: int| dot < j < head.len() implies !#[trigger] q(j) by {
        assert(head[j] == method[j - dot - 1]);
    }
    assert(t.take(dot) =~= front);
    let one = seq![open];
    assert(one.drop_last() =~= Seq::empty());
    reveal_with_fuel(brackets::depth, 2);
    brackets::lemma_depth_add(one, receiver);
}

} // verus!
