//! What the tracker calls the results of operations.

use vstd::prelude::*;

use crate::brackets;
use crate::grammar;
use crate::numeral;
use crate::sources;
use crate::stack_tracker::{self, ArithOp};
use crate::syntax;
use crate::text;

verus! {

/// The sign that an operation is written with.
pub open spec fn sign(op: ArithOp) -> char {
    match op {
        ArithOp::Add => '+',
        ArithOp::Sub => '-',
        ArithOp::Mul => '*',
        ArithOp::Div => '/',
        ArithOp::Mod => '%',
    }
}

/// An operation as it is written.
pub open spec fn operation_text(l: Seq<char>, op: ArithOp, r: Seq<char>) -> Seq<char> {
    l + seq![' ', sign(op), ' '] + r
}

/// A slot is called by its name, or else by its integer.
pub open spec fn called(e: (i64, Option<Seq<char>>), label: Seq<char>) -> bool {
    e.1 == Some(label) || e.1 is None && label == numeral::int_text(e.0 as int)
}

/// An operation takes its two operands off the stack and leaves its result,
/// called by the operation on what the operands are called.
pub proof fn law_operation_names_its_result(
    s: Seq<(i64, Option<Seq<char>>)>,
    left: (i64, Option<Seq<char>>),
    l: Seq<char>,
    right: (i64, Option<Seq<char>>),
    r: Seq<char>,
    op: ArithOp,
    result: i64,
)
    requires
        called(left, l),
        called(right, r),
    ensures
        stack_tracker::operated(s.push(left).push(right), op, result) == s.push(
            (result, Some(operation_text(l, op, r))),
        ),
{
    reveal_strlit(" ");
    reveal_strlit("+");
    reveal_strlit("-");
    reveal_strlit("*");
    reveal_strlit("/");
    reveal_strlit("%");
    let all = s.push(left).push(right);
    assert(all.take(all.len() - 2) =~= s);
    assert(l + " "@ + stack_tracker::symbol_of(op) + " "@ + r =~= operation_text(l, op, r));
}

/// The text lacks the signs of the operations that bind no more tightly than
/// this one and are looked for before it.
pub open spec fn lacks_earlier(s: Seq<char>, op: ArithOp) -> bool {
    match op {
        ArithOp::Add => true,
        ArithOp::Sub => sources::lacks(s, '+'),
        ArithOp::Mul => sources::lacks(s, '+') && sources::lacks(s, '-'),
        ArithOp::Div => sources::lacks(s, '+') && sources::lacks(s, '-') && sources::lacks(s, '*'),
        ArithOp::Mod => sources::lacks(s, '+') && sources::lacks(s, '-') && sources::lacks(s, '*')
            && sources::lacks(s, '/'),
    }
}

proof fn lemma_flat(s: Seq<char>)
    requires
        sources::lacks(s, '('),
        sources::lacks(s, ')'),
    ensures
        brackets::pair_depth(s, '(', ')') == 0,
    decreases s.len(),
{
    if s.len() > 0 {
        assert(s.drop_last().len() == s.len() - 1);
        assert forall|i: int| 0 <= i < s.drop_last().len() implies #[trigger] s.drop_last()[i]
            != '(' && s.drop_last()[i] != ')' by {
            assert(s.drop_last()[i] == s[i]);
        }
        lemma_flat(s.drop_last());
    }
}

proof fn lemma_no_sign(s: Seq<char>, c: char, op: ArithOp)
    requires
        sources::lacks(s, c),
    ensures
        stack_tracker::sign_split(s, c, op) is None,
{
    text::lemma_last_below(s.len() as int, stack_tracker::sign_at(s, c));
}

proof fn lemma_sign(l: Seq<char>, op: ArithOp, r: Seq<char>)
    requires
        l.len() > 0,
        text::trimmed(l) == l,
        r.len() > 0,
        text::trimmed(r) == r,
        sources::lacks(r, '('),
        sources::lacks(r, ')'),
        sources::lacks(r, sign(op)),
    ensures
        stack_tracker::sign_split(operation_text(l, op, r), sign(op), op) == Some((l, op, r)),
{
    let s = operation_text(l, op, r);
    let c = sign(op);
    let i = l.len() as int + 1;
    let q = stack_tracker::sign_at(s, c);
    text::lemma_trimmed_ends(l);
    text::lemma_trimmed_ends(r);
    assert(s.take(i) =~= l + seq![' ']);
    text::lemma_blank_behind(l);
    assert(s.skip(i + 1) =~= seq![' '] + r);
    text::lemma_blank_before(r);
    let rest = s.skip(i);
    assert(rest =~= seq![c, ' '] + r);
    assert forall|j: int| 0 <= j < rest.len() implies #[trigger] rest[j] != '(' && rest[j]
        != ')' by {
        if j >= 2 {
            assert(rest[j] == r[j - 2]);
        }
    }
    lemma_flat(rest);
    assert(s[i] == c);
    assert(q(i));
    text::lemma_last_below(s.len() as int, q);
    assert forall|j: int| i < j < s.len() implies !#[trigger] q(j) by {
        if j > i + 1 {
            assert(s[j] == r[j - i - 2]);
        }
    }
}

/// An operation on two texts is split into them and its sign: at the last sign
/// of its kind, if the text holds none of the kinds that are looked for first.
pub proof fn law_operation_is_split(l: Seq<char>, op: ArithOp, r: Seq<char>)
    requires
        l.len() > 0,
        text::trimmed(l) == l,
        r.len() > 0,
        text::trimmed(r) == r,
        sources::lacks(r, '('),
        sources::lacks(r, ')'),
        sources::lacks(r, sign(op)),
        lacks_earlier(l, op),
        lacks_earlier(r, op),
    ensures
        stack_tracker::arith_split(operation_text(l, op, r)) == Some((l, op, r)),
{
    let s = operation_text(l, op, r);
    lemma_sign(l, op, r);
    if op != ArithOp::Add {
        lemma_lacks(l, op, r, '+');
        lemma_no_sign(s, '+', ArithOp::Add);
        if op != ArithOp::Sub {
            lemma_lacks(l, op, r, '-');
            lemma_no_sign(s, '-', ArithOp::Sub);
            if op != ArithOp::Mul {
                lemma_lacks(l, op, r, '*');
                lemma_no_sign(s, '*', ArithOp::Mul);
                if op != ArithOp::Div {
                    lemma_lacks(l, op, r, '/');
                    lemma_no_sign(s, '/', ArithOp::Div);
                }
            }
        }
    }
}

proof fn lemma_lacks(l: Seq<char>, op: ArithOp, r: Seq<char>, c: char)
    requires
        sources::lacks(l, c),
        sources::lacks(r, c),
        c != ' ',
        c != sign(op),
    ensures
        sources::lacks(operation_text(l, op, r), c),
{
    let s = operation_text(l, op, r);
    let n = l.len() as int;
    assert forall|j: int| 0 <= j < s.len() implies #[trigger] s[j] != c by {
        if j < n {
            assert(s[j] == l[j]);
        } else if j >= n + 3 {
            assert(s[j] == r[j - n - 3]);
        }
    }
}

/// An operand that a name stands for: a variable that is known, or an integer
/// in decimal digits.
pub open spec fn simple(s: Seq<char>, known: Map<Seq<char>, i64>, n: i64) -> bool {
    ||| grammar::plain_name(s) && known.dom().contains(s)
    ||| n >= 0 && s == numeral::int_text(n as int) && !known.dom().contains(s)
}

proof fn lemma_simple(s: Seq<char>, known: Map<Seq<char>, i64>, n: i64, c: char)
    requires
        simple(s, known, n),
        c == '(' || c == ')' || c == '+' || c == '-' || c == '*' || c == '/' || c == '%',
    ensures
        s.len() > 0,
        text::trimmed(s) == s,
        sources::lacks(s, c),
{
    if grammar::plain_name(s) && known.dom().contains(s) {
        sources::lemma_name_lacks(s, c);
    } else {
        numeral::lemma_nat_text_digits(n as nat);
        numeral::lemma_int_text_ends(n as int);
    }
}

proof fn lemma_called(s: Seq<char>, known: Map<Seq<char>, i64>, n: i64)
    requires
        simple(s, known, n),
    ensures
        called(stack_tracker::operand_slot(s, known), s),
{
    if !known.dom().contains(s) {
        lemma_simple(s, known, n, '(');
        numeral::law_decimal_round_trip(n as int, i64::MIN as int, i64::MAX as int);
    }
}

/// An operand is the integer that it writes, or that the variable has.
pub proof fn law_operand_has_its_value(s: Seq<char>, known: Map<Seq<char>, i64>, n: i64)
    ensures
        stack_tracker::operand_value(numeral::int_text(n as int), known) == n,
        grammar::plain_name(s) && known.dom().contains(s) ==> stack_tracker::operand_value(
            s,
            known,
        ) == known[s],
{
    let t = numeral::int_text(n as int);
    numeral::lemma_int_text_ends(n as int);
    text::lemma_trimmed_already(t);
    numeral::law_decimal_round_trip(n as int, i64::MIN as int, i64::MAX as int);
    if grammar::plain_name(s) && numeral::i64_value(s) is Ok {
        numeral::lemma_integer_chars(s, i64::MIN as int, i64::MAX as int);
        syntax::lemma_word_start(s);
    }
}

/// The result of an operation on variables and integers is called by the
/// expression as it is written, and nothing else is on the stack.
#[verifier::spinoff_prover]
#[verifier::rlimit(40)]
pub proof fn law_expression_names_its_result(
    l: Seq<char>,
    m: i64,
    op: ArithOp,
    r: Seq<char>,
    n: i64,
    known: Map<Seq<char>, i64>,
    result: i64,
)
    requires
        simple(l, known, m),
        simple(r, known, n),
    ensures
        stack_tracker::stack_of_expr(operation_text(l, op, r), known, result) == seq![
            (result, Some(operation_text(l, op, r))),
        ],
{
    reveal_strlit("true");
    reveal_strlit("false");
    let s = operation_text(l, op, r);
    let k = l.len() as int;
    lemma_simple(l, known, m, '+');
    lemma_simple(l, known, m, '-');
    lemma_simple(l, known, m, '*');
    lemma_simple(l, known, m, '/');
    lemma_simple(r, known, n, '+');
    lemma_simple(r, known, n, '-');
    lemma_simple(r, known, n, '*');
    lemma_simple(r, known, n, '/');
    lemma_simple(r, known, n, '%');
    lemma_simple(r, known, n, '(');
    lemma_simple(r, known, n, ')');
    law_operation_is_split(l, op, r);
    text::lemma_trimmed_ends(l);
    text::lemma_trimmed_ends(r);
    assert(s[0] == l[0]);
    assert(s.last() == r.last());
    text::lemma_trimmed_already(s);
    assert(s[k] == ' ');
    if numeral::i64_value(s) is Ok {
        numeral::lemma_integer_chars(s, i64::MIN as int, i64::MAX as int);
        assert(s[k] != ' ');
    }
    if s == "true"@ {
        assert("true"@[k] == ' ');
    }
    if s == "false"@ {
        assert("false"@[k] == ' ');
    }
    lemma_called(l, known, m);
    lemma_called(r, known, n);
    let left = stack_tracker::operand_slot(l, known);
    let right = stack_tracker::operand_slot(r, known);
    let none = Seq::<(i64, Option<Seq<char>>)>::empty();
    law_operation_names_its_result(none, left, l, right, r, op, result);
    assert(none.push(left).push(right) =~= seq![left, right]);
    assert(none.push((result, Some(s))) =~= seq![(result, Some(s))]);
}

/// A variable gives its name to its value; an integer gives none.
pub proof fn law_single_operand(s: Seq<char>, known: Map<Seq<char>, i64>, n: i64, result: i64)
    requires
        simple(s, known, n),
        s != "true"@,
        s != "false"@,
    ensures
        stack_tracker::stack_of_expr(s, known, result) == seq![
            (
                result,
                if known.dom().contains(s) {
                    Some(s)
                } else {
                    None
                },
            ),
        ],
{
    lemma_simple(s, known, n, '(');
    if known.dom().contains(s) {
        if numeral::i64_value(s) is Ok {
            numeral::lemma_integer_chars(s, i64::MIN as int, i64::MAX as int);
            syntax::lemma_word_start(s);
        }
    } else {
        numeral::law_decimal_round_trip(n as int, i64::MIN as int, i64::MAX as int);
    }
}

/// The named slots are those of the pushes under a name, in order.
pub proof fn law_named_slots_are_listed(
    s: Seq<(i64, Option<Seq<char>>)>,
    value: i64,
    name: Option<Seq<char>>,
)
    ensures
        name matches Some(label) ==> stack_tracker::named_slots(s.push((value, name)))
            == stack_tracker::named_slots(s).push((label, value)),
        name is None ==> stack_tracker::named_slots(s.push((value, name)))
            == stack_tracker::named_slots(s),
        stack_tracker::named_slots(Seq::empty()).len() == 0,
{
    assert(s.push((value, name)).drop_last() =~= s);
}

} // verus!
