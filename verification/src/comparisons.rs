//! Comparisons of two integers: how they are written, and what they evaluate
//! to.

use vstd::prelude::*;

use crate::brackets;
use crate::expr;
use crate::expr::{BinOp, Expr};
use crate::machine;
use crate::numeral;
use crate::syntax;
use crate::text;
use crate::tvm;
use crate::tvm::TvmFault;

verus! {

/// The sign of a comparison.
pub open spec fn sign_of(op: BinOp) -> Seq<char> {
    match op {
        BinOp::Eq => seq!['=', '='],
        BinOp::Neq => seq!['!', '='],
        BinOp::Leq => seq!['<', '='],
        BinOp::Geq => seq!['>', '='],
        BinOp::Lt => seq!['<'],
        _ => seq!['>'],
    }
}

/// The comparison that holds where `op` does not.
pub open spec fn opposite(op: BinOp) -> BinOp {
    match op {
        BinOp::Eq => BinOp::Neq,
        BinOp::Neq => BinOp::Eq,
        BinOp::Lt => BinOp::Geq,
        BinOp::Geq => BinOp::Lt,
        BinOp::Gt => BinOp::Leq,
        _ => BinOp::Gt,
    }
}

/// The comparison holds of two integers.
pub open spec fn holds(op: BinOp, a: int, b: int) -> bool {
    match op {
        BinOp::Eq => a == b,
        BinOp::Neq => a != b,
        BinOp::Lt => a < b,
        BinOp::Geq => a >= b,
        BinOp::Gt => a > b,
        _ => a <= b,
    }
}

/// The integer of an operand: a boolean or integer literal, or a variable that
/// has a value.
pub open spec fn operand_value(s: Seq<char>, known: Map<Seq<char>, i64>) -> Option<i64> {
    if s == "true"@ {
        Some(1)
    } else if s == "false"@ {
        Some(0)
    } else if let Ok(n) = numeral::i64_value(s) {
        Some(n as i64)
    } else if syntax::word_name(s) && text::trimmed(s) == s && known.dom().contains(s) {
        Some(known[s])
    } else {
        None
    }
}

/// A comparison as it is written.
pub open spec fn comparison_text(l: Seq<char>, op: BinOp, r: Seq<char>) -> Seq<char> {
    l + seq![' '] + sign_of(op) + seq![' '] + r
}

/// The expression of a comparison of two integers.
pub open spec fn comparison(a: i64, op: BinOp, b: i64) -> Expr {
    Expr::BinOp { op, left: Box::new(Expr::Literal(a)), right: Box::new(Expr::Literal(b)) }
}

/// A character that stands in no comparison sign and in no parenthesis.
pub open spec fn quiet(c: char) -> bool {
    c != '=' && c != '!' && c != '<' && c != '>' && c != '(' && c != ')'
}

pub open spec fn all_quiet(s: Seq<char>) -> bool {
    forall|i: int| 0 <= i < s.len() ==> quiet(#[trigger] s[i])
}

/// An operand holds no sign and no parenthesis, and parses to its integer.
pub proof fn lemma_operand(s: Seq<char>, known: Map<Seq<char>, i64>)
    requires
        operand_value(s, known) is Some,
    ensures
        s.len() > 0,
        !text::white(s[0]),
        !text::white(s.last()),
        all_quiet(s),
        expr::parsed(s, known) == Some(Expr::Literal(operand_value(s, known)->0)),
{
    reveal_strlit("true");
    reveal_strlit("false");
    if s == "true"@ || s == "false"@ {
        text::lemma_trimmed_already(s);
    } else if numeral::i64_value(s) is Ok {
        numeral::lemma_integer_chars(s, i64::MIN as int, i64::MAX as int);
        text::lemma_trimmed_already(s);
        assert forall|i: int| 0 <= i < s.len() implies quiet(#[trigger] s[i]) by {
            if i > 0 {
                assert('0' <= s[i] <= '9');
            }
        }
    } else {
        syntax::lemma_name_is_plain(s);
        text::lemma_trimmed_ends(s);
    }
    assert(quiet(s[0]));
}

/// A text without parentheses has no depth anywhere.
proof fn lemma_outside(s: Seq<char>)
    requires
        forall|i: int| 0 <= i < s.len() ==> #[trigger] s[i] != '(' && s[i] != ')',
    ensures
        brackets::pair_depth(s, '(', ')') == 0,
    decreases s.len(),
{
    if s.len() > 0 {
        assert(s.last() == s[s.len() - 1]);
        lemma_outside(s.drop_last());
    }
}

/// Where a sign of two characters stands in a comparison.
proof fn lemma_double(l: Seq<char>, op: BinOp, r: Seq<char>, sign: Seq<char>)
    requires
        l.len() > 0,
        all_quiet(l),
        all_quiet(r),
        machine::is_comparison(op),
        sign.len() == 2,
        !quiet(sign[0]),
        sign[1] == '=',
    ensures
        expr::top_level_op(comparison_text(l, op, r), sign) == if sign == sign_of(op) {
            Some(l.len() as int + 1)
        } else {
            None
        },
{
    let s = comparison_text(l, op, r);
    let at = l.len() as int + 1;
    let p = expr::op_at(s, sign);
    text::lemma_last_below(s.len() - 2 + 1, p);
    assert forall|j: int| 0 <= j < s.len() - 1 implies #[trigger] p(j) == (j == at && sign
        == sign_of(op)) by {
        if sign.is_prefix_of(s.skip(j)) {
            assert(s.skip(j).subrange(0, 2)[0] == s[j]);
            assert(s.skip(j).subrange(0, 2)[1] == s[j + 1]);
            lemma_sign_place(l, op, r, j);
            lemma_sign_place(l, op, r, j + 1);
            assert(sign =~= sign_of(op));
        }
        if j == at && sign == sign_of(op) {
            assert(s.skip(j).subrange(0, 2) =~= sign);
            assert forall|i: int| 0 <= i < s.skip(j).len() implies #[trigger] s.skip(j)[i] != '('
                && s.skip(j)[i] != ')' by {
                lemma_sign_place(l, op, r, i + j);
            }
            lemma_outside(s.skip(j));
        }
    }
    if sign == sign_of(op) {
        assert(p(at));
    }
}

/// The characters of a comparison that are not quiet are those of its sign.
proof fn lemma_sign_place(l: Seq<char>, op: BinOp, r: Seq<char>, i: int)
    requires
        all_quiet(l),
        all_quiet(r),
        machine::is_comparison(op),
        0 <= i < comparison_text(l, op, r).len(),
    ensures
        ({
            let c = comparison_text(l, op, r)[i];
            let at = l.len() as int + 1;
            &&& c != '(' && c != ')'
            &&& !quiet(c) ==> at <= i < at + sign_of(op).len() && c == sign_of(op)[i - at]
            &&& at <= i < at + sign_of(op).len() ==> c == sign_of(op)[i - at]
        }),
{
    let at = l.len() as int + 1;
    let w = sign_of(op).len() as int;
    let c = comparison_text(l, op, r)[i];
    if i < l.len() {
        assert(c == l[i]);
    } else if i == l.len() || i == at + w {
        assert(c == ' ');
    } else if i > at + w {
        assert(c == r[i - at - w - 1]);
    } else {
        assert(c == sign_of(op)[i - at]);
    }
}

/// Where a sign of one character stands alone in a comparison whose sign has
/// one character.
proof fn lemma_single(l: Seq<char>, op: BinOp, r: Seq<char>, sign: char)
    requires
        l.len() > 0,
        all_quiet(l),
        all_quiet(r),
        op == BinOp::Lt || op == BinOp::Gt,
        sign == '<' || sign == '>',
    ensures
        expr::top_level_single(comparison_text(l, op, r), sign) == if seq![sign] == sign_of(op) {
            Some(l.len() as int + 1)
        } else {
            None
        },
{
    let s = comparison_text(l, op, r);
    let at = l.len() as int + 1;
    let p = expr::single_at(s, sign);
    text::lemma_last_below(s.len() as int, p);
    assert(seq![sign][0] == sign);
    assert(sign_of(op)[0] == sign ==> seq![sign] =~= sign_of(op));
    assert forall|j: int| 0 <= j < s.len() implies #[trigger] p(j) == (j == at && seq![sign]
        == sign_of(op)) by {
        lemma_sign_place(l, op, r, j);
        if j == at && seq![sign] == sign_of(op) {
            assert(s[j + 1] == ' ');
            assert(s[j - 1] == ' ');
            assert forall|i: int| 0 <= i < s.skip(j).len() implies #[trigger] s.skip(j)[i] != '('
                && s.skip(j)[i] != ')' by {
                lemma_sign_place(l, op, r, i + j);
            }
            lemma_outside(s.skip(j));
        }
    }
    if seq![sign] == sign_of(op) {
        assert(p(at));
    }
}

/// A comparison is split at its sign into the operands that it was written of.
#[verifier::spinoff_prover]
#[verifier::rlimit(40)]
proof fn lemma_split(l: Seq<char>, op: BinOp, r: Seq<char>)
    requires
        l.len() > 0,
        !text::white(l[0]),
        !text::white(l.last()),
        all_quiet(l),
        r.len() > 0,
        !text::white(r[0]),
        !text::white(r.last()),
        all_quiet(r),
        machine::is_comparison(op),
    ensures
        expr::binary_split(comparison_text(l, op, r)) == Some((op, l, r)),
{
    reveal_strlit("==");
    reveal_strlit("!=");
    reveal_strlit("<=");
    reveal_strlit(">=");
    let s = comparison_text(l, op, r);
    let at = l.len() as int + 1;
    let w = sign_of(op).len() as int;
    assert(s.take(at) =~= l + seq![' ']);
    assert(s.skip(at + w) =~= seq![' '] + r);
    text::lemma_blank_behind(l);
    text::lemma_blank_before(r);
    lemma_double(l, op, r, "=="@);
    lemma_double(l, op, r, "!="@);
    lemma_double(l, op, r, "<="@);
    lemma_double(l, op, r, ">="@);
    assert("=="@ =~= seq!['=', '=']);
    assert("!="@ =~= seq!['!', '=']);
    assert("<="@ =~= seq!['<', '=']);
    assert(">="@ =~= seq!['>', '=']);
    let sign = sign_of(op);
    assert(("=="@ == sign) == (op == BinOp::Eq)) by {
        if "=="@ == sign {
            assert(sign[0] == '=');
        }
    }
    assert(("!="@ == sign) == (op == BinOp::Neq)) by {
        if "!="@ == sign {
            assert(sign[0] == '!');
        }
    }
    assert(("<="@ == sign) == (op == BinOp::Leq)) by {
        if "<="@ == sign {
            assert(sign[0] == '<' && sign.len() == 2);
        }
    }
    assert((">="@ == sign) == (op == BinOp::Geq)) by {
        if ">="@ == sign {
            assert(sign[0] == '>' && sign.len() == 2);
        }
    }
    if op == BinOp::Lt || op == BinOp::Gt {
        lemma_single(l, op, r, '<');
        lemma_single(l, op, r, '>');
        assert((seq!['<'] == sign) == (op == BinOp::Lt)) by {
            assert(seq!['<'][0] == '<');
        }
    }
}

/// A comparison is read as the two operands and the sign that it was written
/// of, unless a variable has the whole text as its name.
pub proof fn law_comparison_is_read_back(
    l: Seq<char>,
    op: BinOp,
    r: Seq<char>,
    known: Map<Seq<char>, i64>,
)
    requires
        machine::is_comparison(op),
        operand_value(l, known) is Some,
        operand_value(r, known) is Some,
        !known.dom().contains(comparison_text(l, op, r)),
    ensures
        expr::parsed(comparison_text(l, op, r), known) == Some(
            comparison(operand_value(l, known)->0, op, operand_value(r, known)->0),
        ),
{
    reveal_strlit("true");
    reveal_strlit("false");
    lemma_operand(l, known);
    lemma_operand(r, known);
    let s = comparison_text(l, op, r);
    assert(s[0] == l[0]);
    assert(s.last() == r.last());
    assert(quiet(l[0]));
    assert(s[l.len() as int] == ' ');
    text::lemma_trimmed_already(s);
    if s == "true"@ || s == "false"@ {
        assert(s[l.len() as int] != ' ');
    }
    if numeral::i64_value(s) is Ok {
        numeral::lemma_integer_chars(s, i64::MIN as int, i64::MAX as int);
        assert('0' <= s[l.len() as int] <= '9');
    }
    lemma_split(l, op, r);
}

/// The code of a comparison fits into a cell.
proof fn lemma_code_fits(a: i64, op: BinOp, b: i64)
    requires
        machine::is_comparison(op),
    ensures
        tvm::code_of(comparison(a, op, b)).len() <= tvm::CELL_BYTES,
{
    machine::lemma_push_fits(a as int);
    machine::lemma_push_fits(b as int);
    reveal_with_fuel(tvm::code_of, 2);
    assert(tvm::op_code(op).len() == 2);
}

/// The value of a comparison.
proof fn lemma_value(a: i64, op: BinOp, b: i64)
    requires
        machine::is_comparison(op),
    ensures
        machine::value(comparison(a, op, b)) == Some(
            if holds(op, a as int, b as int) {
                1int
            } else {
                0int
            },
        ),
{
    reveal_with_fuel(machine::value, 2);
}

/// A comparison gives 1 if it holds of its operands and 0 if it does not, where
/// the virtual machine runs its code as the machine of `machine` does.
pub proof fn law_comparison_is_one_or_zero(
    l: Seq<char>,
    op: BinOp,
    r: Seq<char>,
    known: Map<Seq<char>, i64>,
)
    requires
        machine::is_comparison(op),
        operand_value(l, known) is Some,
        operand_value(r, known) is Some,
        !known.dom().contains(comparison_text(l, op, r)),
    ensures
        ({
            let a = operand_value(l, known)->0;
            let b = operand_value(r, known)->0;
            machine::runs_alike(tvm::code_of(comparison(a, op, b))) ==> tvm::checked_value(
                comparison_text(l, op, r),
                known,
            ) == Ok::<Option<int>, TvmFault>(
                Some(
                    if holds(op, a as int, b as int) {
                        1int
                    } else {
                        0int
                    },
                ),
            )
        }),
{
    let a = operand_value(l, known)->0;
    let b = operand_value(r, known)->0;
    let e = comparison(a, op, b);
    law_comparison_is_read_back(l, op, r, known);
    lemma_code_fits(a, op, b);
    lemma_value(a, op, b);
    machine::law_expression_has_its_value(e);
}

/// A comparison and its opposite (`==` and `!=`, `<` and `>=`, `>` and `<=`) of
/// the same operands give values that add up to 1, where the virtual machine
/// runs their code as the machine of `machine` does.
pub proof fn law_opposite_comparisons_add_up_to_one(
    l: Seq<char>,
    op: BinOp,
    r: Seq<char>,
    known: Map<Seq<char>, i64>,
)
    requires
        machine::is_comparison(op),
        operand_value(l, known) is Some,
        operand_value(r, known) is Some,
        !known.dom().contains(comparison_text(l, op, r)),
        !known.dom().contains(comparison_text(l, opposite(op), r)),
    ensures
        ({
            let a = operand_value(l, known)->0;
            let b = operand_value(r, known)->0;
            let one = tvm::checked_value(comparison_text(l, op, r), known);
            let other = tvm::checked_value(comparison_text(l, opposite(op), r), known);
            machine::runs_alike(tvm::code_of(comparison(a, op, b))) && machine::runs_alike(
                tvm::code_of(comparison(a, opposite(op), b)),
            ) ==> {
                &&& one matches Ok(Some(x))
                &&& other matches Ok(Some(y))
                &&& x + y == 1
            }
        }),
{
    law_comparison_is_one_or_zero(l, op, r, known);
    law_comparison_is_one_or_zero(l, opposite(op), r, known);
}

} // verus!
