//! Integer expressions as they are written, with the precedence of their
//! operators, and that reading one gives back what was written.

use vstd::prelude::*;

use crate::brackets;
use crate::comparisons;
use crate::expr;
use crate::expr::{BinOp, Expr, Tier, UnOp};
use crate::numeral;
use crate::syntax;
use crate::text;

verus! {

/// An expression as it is written: with its parentheses, and with a blank on
/// both sides of an operator or none.
pub enum Tree {
    Leaf(Seq<char>),
    Paren(Box<Tree>),
    Bin { op: BinOp, blanks: bool, left: Box<Tree>, right: Box<Tree> },
    Un { sign: UnOp, operand: Box<Tree> },
}

/// The sign of a binary operator.
pub open spec fn symbol(op: BinOp) -> Seq<char> {
    match op {
        BinOp::Eq => seq!['=', '='],
        BinOp::Neq => seq!['!', '='],
        BinOp::Leq => seq!['<', '='],
        BinOp::Geq => seq!['>', '='],
        BinOp::Lt => seq!['<'],
        BinOp::Gt => seq!['>'],
        BinOp::BitOr => seq!['|'],
        BinOp::BitXor => seq!['^'],
        BinOp::BitAnd => seq!['&'],
        BinOp::Shl => seq!['<', '<'],
        BinOp::Shr => seq!['>', '>'],
        BinOp::Add => seq!['+'],
        BinOp::Sub => seq!['-'],
        BinOp::Mul => seq!['*'],
        BinOp::Div => seq!['/'],
        BinOp::Mod => seq!['%'],
    }
}

/// How tightly an operator binds: comparisons loosest, then `|`, `^`, `&`, the
/// shifts, the sums, and the products tightest.
pub open spec fn rank(op: BinOp) -> int {
    match op {
        BinOp::Eq | BinOp::Neq | BinOp::Leq | BinOp::Geq | BinOp::Lt | BinOp::Gt => 0,
        BinOp::BitOr => 1,
        BinOp::BitXor => 2,
        BinOp::BitAnd => 3,
        BinOp::Shl | BinOp::Shr => 4,
        BinOp::Add | BinOp::Sub => 5,
        BinOp::Mul | BinOp::Div | BinOp::Mod => 6,
    }
}

/// An operand with a sign of its own.
pub open spec fn signed(s: Seq<char>) -> bool {
    s.len() > 0 && (s[0] == '+' || s[0] == '-')
}

/// How tightly an expression holds together: as its operator does, more tightly
/// than any if it is an operand or in parentheses, and less tightly than any if
/// it begins with a sign.
pub open spec fn level(t: Tree) -> int {
    match t {
        Tree::Leaf(s) => if signed(s) {
            -1
        } else {
            7
        },
        Tree::Paren(_) => 7,
        Tree::Bin { op, .. } => rank(op),
        Tree::Un { .. } => -1,
    }
}

/// A name of a variable.
pub open spec fn variable_name(s: Seq<char>) -> bool {
    syntax::word_name(s) && text::trimmed(s) == s
}

/// The operands are literals or names, and there are parentheses wherever the
/// precedence of the operators asks for them. Operators of the same rank associate to the
/// left; comparisons do not associate.
pub open spec fn fits(t: Tree, known: Map<Seq<char>, i64>) -> bool
    decreases t,
{
    match t {
        Tree::Leaf(s) => comparisons::operand_value(s, known) is Some || variable_name(s),
        Tree::Paren(inner) => fits(*inner, known),
        Tree::Bin { op, left, right, .. } => {
            &&& fits(*left, known)
            &&& fits(*right, known)
            &&& level(*left) >= rank(op) && level(*left) >= 1
            &&& level(*right) > rank(op)
        },
        Tree::Un { operand, .. } => {
            &&& fits(*operand, known)
            &&& level(*operand) == 7
            &&& *operand matches Tree::Leaf(s) ==> syntax::word_name(s)
        },
    }
}

/// The text of a gap.
pub open spec fn gap(blanks: bool) -> Seq<char> {
    if blanks {
        seq![' ']
    } else {
        Seq::empty()
    }
}

/// The text of an expression.
pub open spec fn written(t: Tree) -> Seq<char>
    decreases t,
{
    match t {
        Tree::Leaf(s) => s,
        Tree::Paren(inner) => seq!['('] + written(*inner) + seq![')'],
        Tree::Bin { op, blanks, left, right } => written(*left) + (gap(blanks) + symbol(op) + gap(
            blanks,
        )) + written(*right),
        Tree::Un { sign, operand } => seq![
            if sign == UnOp::Neg {
                '-'
            } else {
                '~'
            },
        ] + written(*operand),
    }
}

/// The expression that is meant: parentheses are gone, operands are their
/// values. There is none if a variable has no value.
pub open spec fn meaning(t: Tree, known: Map<Seq<char>, i64>) -> Option<Expr>
    decreases t,
{
    match t {
        Tree::Leaf(s) => match comparisons::operand_value(s, known) {
            Some(n) => Some(Expr::Literal(n)),
            None => None,
        },
        Tree::Paren(inner) => meaning(*inner, known),
        Tree::Bin { op, left, right, .. } => match (meaning(*left, known), meaning(*right, known)) {
            (Some(a), Some(b)) => Some(Expr::BinOp { op, left: Box::new(a), right: Box::new(b) }),
            _ => None,
        },
        Tree::Un { sign, operand } => match meaning(*operand, known) {
            Some(a) => Some(Expr::UnOp { sign, operand: Box::new(a) }),
            None => None,
        },
    }
}

/// The variables have names.
pub open spec fn names_only(known: Map<Seq<char>, i64>) -> bool {
    forall|k: Seq<char>| #[trigger] known.dom().contains(k) ==> syntax::word_name(k)
        && text::trimmed(k) == k
}

/// The rank of the operators that a character belongs to.
spec fn char_rank(c: char) -> int {
    if c == '=' || c == '!' {
        0
    } else if c == '|' {
        1
    } else if c == '^' {
        2
    } else if c == '&' {
        3
    } else if c == '<' || c == '>' {
        4
    } else if c == '+' || c == '-' {
        5
    } else if c == '*' || c == '/' || c == '%' {
        6
    } else {
        7
    }
}

spec fn angle(c: char) -> bool {
    c == '<' || c == '>'
}

/// The angle bracket at `i` is one of a pair.
spec fn paired(s: Seq<char>, i: int) -> bool {
    (i + 1 < s.len() && s[i + 1] == s[i]) || (i > 0 && s[i - 1] == s[i])
}

/// Outside of parentheses stand only operators of rank `k` and more.
spec fn calm(s: Seq<char>, k: int) -> bool {
    forall|i: int|
        0 <= i < s.len() && #[trigger] expr::outside(s, i) ==> char_rank(s[i]) >= k && (angle(s[i])
            ==> paired(s, i))
}

/// A text without parentheses.
spec fn open_text(s: Seq<char>) -> bool {
    forall|i: int| 0 <= i < s.len() ==> #[trigger] s[i] != '(' && s[i] != ')'
}

proof fn lemma_open(s: Seq<char>)
    requires
        open_text(s),
    ensures
        brackets::pair_depth(s, '(', ')') == 0,
        expr::balanced(s),
    decreases s.len(),
{
    if s.len() > 0 {
        assert(s.last() == s[s.len() - 1]);
        assert(open_text(s.drop_last())) by {
            assert forall|i: int| 0 <= i < s.drop_last().len() implies #[trigger] s.drop_last()[i]
                != '(' && s.drop_last()[i] != ')' by {
                assert(s.drop_last()[i] == s[i]);
            }
        }
        lemma_open(s.drop_last());
        assert forall|k: int| 0 <= k <= s.len() implies #[trigger] brackets::pair_depth(
            s.take(k),
            '(',
            ')',
        ) >= 0 by {
            if k < s.len() {
                assert(s.take(k) =~= s.drop_last().take(k));
            } else {
                assert(s.take(k) =~= s);
            }
        }
    } else {
        assert forall|k: int| 0 <= k <= s.len() implies #[trigger] brackets::pair_depth(
            s.take(k),
            '(',
            ')',
        ) >= 0 by {
            assert(s.take(k) =~= s);
        }
    }
}

/// Balanced texts in a row are balanced.
proof fn lemma_balanced_add(a: Seq<char>, b: Seq<char>)
    requires
        expr::balanced(a),
        expr::balanced(b),
    ensures
        expr::balanced(a + b),
{
    let s = a + b;
    brackets::lemma_pair_add(a, b, '(', ')');
    assert forall|k: int| 0 <= k <= s.len() implies #[trigger] brackets::pair_depth(
        s.take(k),
        '(',
        ')',
    ) >= 0 by {
        if k <= a.len() {
            assert(s.take(k) =~= a.take(k));
        } else {
            assert(s.take(k) =~= a + b.take(k - a.len()));
            brackets::lemma_pair_add(a, b.take(k - a.len()), '(', ')');
        }
    }
}

/// What is outside of the parentheses of one of two texts is outside in both
/// together.
proof fn lemma_outside_add(a: Seq<char>, b: Seq<char>, i: int)
    requires
        brackets::pair_depth(b, '(', ')') == 0,
        0 <= i <= a.len() + b.len(),
    ensures
        i < a.len() ==> expr::outside(a + b, i) == expr::outside(a, i),
        i >= a.len() ==> expr::outside(a + b, i) == expr::outside(b, i - a.len()),
{
    if i < a.len() {
        assert((a + b).skip(i) =~= a.skip(i) + b);
        brackets::lemma_pair_add(a.skip(i), b, '(', ')');
    } else {
        assert((a + b).skip(i) =~= b.skip(i - a.len()));
    }
}

/// Behind a character outside that is no parenthesis stands one outside.
proof fn lemma_next_outside(s: Seq<char>, i: int)
    requires
        0 <= i < s.len(),
        expr::outside(s, i),
        s[i] != '(',
        s[i] != ')',
    ensures
        expr::outside(s, i + 1),
{
    brackets::lemma_pair_skip(s, i, '(', ')');
}

/// An operand holds no operator but a sign before it.
proof fn lemma_leaf(s: Seq<char>, known: Map<Seq<char>, i64>)
    requires
        comparisons::operand_value(s, known) is Some,
    ensures
        s.len() > 0,
        !text::white(s[0]),
        !text::white(s.last()),
        open_text(s),
        char_rank(s.last()) == 7,
        !signed(s) ==> calm(s, 7) && char_rank(s[0]) == 7,
        expr::parsed(s, known) == Some(Expr::Literal(comparisons::operand_value(s, known)->0)),
{
    reveal_strlit("true");
    reveal_strlit("false");
    comparisons::lemma_operand(s, known);
    assert(s.last() == s[s.len() - 1]);
    if s == "true"@ || s == "false"@ {
    } else if numeral::i64_value(s) is Ok {
        numeral::lemma_integer_chars(s, i64::MIN as int, i64::MAX as int);
        assert forall|i: int| 0 <= i < s.len() implies #[trigger] s[i] != '(' && s[i] != ')' && (i
            > 0 ==> char_rank(s[i]) == 7) by {
            if i > 0 {
                assert('0' <= s[i] <= '9');
            }
        }
    } else {
        syntax::lemma_name_is_plain(s);
        assert forall|i: int| 0 <= i < s.len() implies #[trigger] s[i] != '(' && s[i] != ')'
            && char_rank(s[i]) == 7 by {}
    }
}

/// A name without a value is no expression.
proof fn lemma_unbound(s: Seq<char>, known: Map<Seq<char>, i64>)
    requires
        variable_name(s),
        comparisons::operand_value(s, known) is None,
    ensures
        s.len() > 0,
        !text::white(s[0]),
        !text::white(s.last()),
        open_text(s),
        char_rank(s.last()) == 7,
        !signed(s),
        calm(s, 7),
        char_rank(s[0]) == 7,
        expr::parsed(s, known) is None,
{
    syntax::lemma_name_is_plain(s);
    text::lemma_trimmed_ends(s);
    assert(s.last() == s[s.len() - 1]);
    assert forall|i: int| 0 <= i < s.len() implies #[trigger] s[i] != '(' && s[i] != ')'
        && char_rank(s[i]) == 7 && s[i] != '~' by {}
    lemma_comparison_none(s);
    lemma_tier_none(s, 7, Tier::BitOr);
    lemma_tier_none(s, 7, Tier::BitXor);
    lemma_tier_none(s, 7, Tier::BitAnd);
    lemma_tier_none(s, 7, Tier::Shift);
    lemma_tier_none(s, 7, Tier::Sum);
    lemma_tier_none(s, 7, Tier::Product);
    assert(s[0] != '(' && char_rank(s[0]) == 7 && s[0] != '~');
}

/// The operator of a tier has the rank of the tier.
spec fn tier_rank(tier: Tier) -> int {
    match tier {
        Tier::BitOr => 1,
        Tier::BitXor => 2,
        Tier::BitAnd => 3,
        Tier::Shift => 4,
        Tier::Sum => 5,
        Tier::Product => 6,
    }
}

/// No operator of a tier below rank `k` splits a calm text.
proof fn lemma_tier_none(s: Seq<char>, k: int, tier: Tier)
    requires
        forall|i: int|
            0 < i < s.len() && #[trigger] expr::outside(s, i) ==> char_rank(s[i]) >= k,
        tier_rank(tier) < k,
    ensures
        expr::tier_split(s, tier) is None,
{
    let p = expr::operator_at(s, tier);
    text::lemma_last_below(s.len() as int, p);
    assert forall|i: int| 0 <= i < s.len() implies !#[trigger] p(i) by {
        if p(i) {
            assert(expr::outside(s, i));
            assert(char_rank(s[i]) == tier_rank(tier));
        }
    }
}

/// No comparison splits a text without one.
proof fn lemma_comparison_none(s: Seq<char>)
    requires
        forall|i: int|
            0 < i < s.len() && #[trigger] expr::outside(s, i) ==> char_rank(s[i]) >= 1 && (angle(
                s[i],
            ) ==> paired(s, i)),
    ensures
        expr::comparison_split(s) is None,
{
    reveal_strlit("==");
    reveal_strlit("!=");
    reveal_strlit("<=");
    reveal_strlit(">=");
    lemma_sign_none(s, "=="@);
    lemma_sign_none(s, "!="@);
    lemma_sign_none(s, "<="@);
    lemma_sign_none(s, ">="@);
    let p = expr::single_at(s, '<');
    let q = expr::single_at(s, '>');
    text::lemma_last_below(s.len() as int, p);
    text::lemma_last_below(s.len() as int, q);
    assert forall|i: int| 0 <= i < s.len() implies !#[trigger] p(i) by {
        if p(i) {
            assert(expr::outside(s, i));
        }
    }
    assert forall|i: int| 0 <= i < s.len() implies !#[trigger] q(i) by {
        if q(i) {
            assert(expr::outside(s, i));
        }
    }
}

proof fn lemma_sign_none(s: Seq<char>, sign: Seq<char>)
    requires
        sign.len() == 2,
        sign[1] == '=',
        char_rank(sign[0]) < 5,
        forall|i: int|
            0 < i < s.len() && #[trigger] expr::outside(s, i) ==> char_rank(s[i]) >= 1,
    ensures
        expr::top_level_op(s, sign) is None,
{
    let p = expr::op_at(s, sign);
    text::lemma_last_below(s.len() - 2 + 1, p);
    assert forall|i: int| 0 <= i < s.len() - 1 implies !#[trigger] p(i) by {
        if p(i) {
            assert(s.skip(i).subrange(0, 2)[0] == s[i]);
            assert(s.skip(i).subrange(0, 2)[1] == s[i + 1]);
            lemma_next_outside(s, i);
        }
    }
}

/// The parts of a binary expression: two texts and an operator between them.
spec fn parts_fit(l: Seq<char>, op: BinOp, r: Seq<char>) -> bool {
    &&& l.len() > 0 && r.len() > 0
    &&& !text::white(l[0]) && !text::white(l.last())
    &&& !text::white(r[0]) && !text::white(r.last())
    &&& char_rank(l[0]) == 7 && char_rank(l.last()) == 7
    &&& char_rank(r[0]) == 7 && char_rank(r.last()) == 7
    &&& expr::balanced(l) && expr::balanced(r)
    &&& calm(l, rank(op)) && calm(l, 1)
    &&& calm(r, rank(op) + 1)
}

spec fn bin_text(l: Seq<char>, blanks: bool, op: BinOp, r: Seq<char>) -> Seq<char> {
    l + (gap(blanks) + symbol(op) + gap(blanks)) + r
}

/// The characters of a binary expression, by where they stand.
proof fn lemma_place(l: Seq<char>, blanks: bool, op: BinOp, r: Seq<char>, i: int)
    requires
        parts_fit(l, op, r),
        0 <= i < bin_text(l, blanks, op, r).len(),
    ensures
        ({
            let s = bin_text(l, blanks, op, r);
            let at = l.len() + gap(blanks).len();
            let end = at + symbol(op).len() + gap(blanks).len();
            &&& i < l.len() ==> s[i] == l[i] && expr::outside(s, i) == expr::outside(l, i)
            &&& l.len() <= i < at ==> s[i] == ' ' && expr::outside(s, i)
            &&& at <= i < at + symbol(op).len() ==> s[i] == symbol(op)[i - at] && expr::outside(s, i)
            &&& at + symbol(op).len() <= i < end ==> s[i] == ' ' && expr::outside(s, i)
            &&& end <= i ==> s[i] == r[i - end] && expr::outside(s, i) == expr::outside(r, i - end)
            &&& s.len() == end + r.len()
        }),
{
    let m = gap(blanks) + symbol(op) + gap(blanks);
    let s = bin_text(l, blanks, op, r);
    assert(open_text(m)) by {
        assert forall|j: int| 0 <= j < m.len() implies #[trigger] m[j] != '(' && m[j] != ')' by {}
    }
    lemma_open(m);
    lemma_outside_add(l + m, r, i);
    if i < l.len() + m.len() {
        lemma_outside_add(l, m, i);
        if i >= l.len() {
            let j = i - l.len();
            assert(open_text(m.skip(j))) by {
                assert forall|k: int| 0 <= k < m.skip(j).len() implies #[trigger] m.skip(j)[k]
                    != '(' && m.skip(j)[k] != ')' by {
                    assert(m.skip(j)[k] == m[k + j]);
                }
            }
            lemma_open(m.skip(j));
        }
    }
}

/// The neighbours of what stands outside in a part are those in the part.
proof fn lemma_whole_calm(l: Seq<char>, blanks: bool, op: BinOp, r: Seq<char>)
    requires
        parts_fit(l, op, r),
        rank(op) >= 1,
    ensures
        calm(bin_text(l, blanks, op, r), rank(op)),
{
    let s = bin_text(l, blanks, op, r);
    let at = l.len() + gap(blanks).len();
    let end = at + symbol(op).len() + gap(blanks).len();
    assert forall|i: int| 0 <= i < s.len() && #[trigger] expr::outside(s, i) implies char_rank(s[i])
        >= rank(op) && (angle(s[i]) ==> paired(s, i)) by {
        lemma_place(l, blanks, op, r, i);
        if i + 1 < s.len() {
            lemma_place(l, blanks, op, r, i + 1);
        }
        if i > 0 {
            lemma_place(l, blanks, op, r, i - 1);
        }
        if i < l.len() {
            assert(expr::outside(l, i));
        } else if end <= i {
            assert(expr::outside(r, i - end));
        }
    }
}

/// A comparison is split at its sign.
#[verifier::spinoff_prover]
#[verifier::rlimit(40)]
proof fn lemma_split_comparison(l: Seq<char>, blanks: bool, op: BinOp, r: Seq<char>)
    requires
        parts_fit(l, op, r),
        rank(op) == 0,
    ensures
        expr::binary_split(bin_text(l, blanks, op, r)) == Some((op, l, r)),
{
    reveal_strlit("==");
    reveal_strlit("!=");
    reveal_strlit("<=");
    reveal_strlit(">=");
    let s = bin_text(l, blanks, op, r);
    let at = (l.len() + gap(blanks).len()) as int;
    let w = symbol(op).len() as int;
    lemma_sides(l, blanks, op, r);
    lemma_double(l, blanks, op, r, "=="@);
    lemma_double(l, blanks, op, r, "!="@);
    lemma_double(l, blanks, op, r, "<="@);
    lemma_double(l, blanks, op, r, ">="@);
    let sign = symbol(op);
    assert(("=="@ == sign) == (op == BinOp::Eq)) by {
        assert("=="@ =~= seq!['=', '=']);
        if "=="@ == sign {
            assert(sign[0] == '=');
        }
    }
    assert(("!="@ == sign) == (op == BinOp::Neq)) by {
        assert("!="@ =~= seq!['!', '=']);
        if "!="@ == sign {
            assert(sign[0] == '!');
        }
    }
    assert(("<="@ == sign) == (op == BinOp::Leq)) by {
        assert("<="@ =~= seq!['<', '=']);
        if "<="@ == sign {
            assert(sign[0] == '<' && sign.len() == 2);
        }
    }
    assert((">="@ == sign) == (op == BinOp::Geq)) by {
        assert(">="@ =~= seq!['>', '=']);
        if ">="@ == sign {
            assert(sign[0] == '>' && sign.len() == 2);
        }
    }
    if w == 1 {
        lemma_single(l, blanks, op, r, '<');
        lemma_single(l, blanks, op, r, '>');
    }
}

/// The two sides of a binary expression.
proof fn lemma_sides(l: Seq<char>, blanks: bool, op: BinOp, r: Seq<char>)
    requires
        parts_fit(l, op, r),
    ensures
        ({
            let s = bin_text(l, blanks, op, r);
            let at = l.len() + gap(blanks).len();
            &&& text::trimmed(s.take(at as int)) == l
            &&& text::trimmed(s.skip((at + symbol(op).len()) as int)) == r
        }),
{
    let s = bin_text(l, blanks, op, r);
    let at = (l.len() + gap(blanks).len()) as int;
    assert(s.take(at) =~= l + gap(blanks));
    assert(s.skip(at + symbol(op).len()) =~= gap(blanks) + r);
    if blanks {
        text::lemma_blank_behind(l);
        text::lemma_blank_before(r);
    } else {
        assert(l + gap(blanks) =~= l);
        assert(gap(blanks) + r =~= r);
        text::lemma_trimmed_already(l);
        text::lemma_trimmed_already(r);
    }
}

proof fn lemma_double(l: Seq<char>, blanks: bool, op: BinOp, r: Seq<char>, sign: Seq<char>)
    requires
        parts_fit(l, op, r),
        rank(op) == 0,
        sign.len() == 2,
        char_rank(sign[0]) < 5,
        sign[1] == '=',
    ensures
        expr::top_level_op(bin_text(l, blanks, op, r), sign) == if sign == symbol(op) {
            Some((l.len() + gap(blanks).len()) as int)
        } else {
            None
        },
{
    let s = bin_text(l, blanks, op, r);
    let at = (l.len() + gap(blanks).len()) as int;
    let end = at + symbol(op).len() + gap(blanks).len();
    let p = expr::op_at(s, sign);
    text::lemma_last_below(s.len() - 2 + 1, p);
    assert forall|j: int| 0 <= j < s.len() - 1 implies #[trigger] p(j) == (j == at && sign
        == symbol(op)) by {
        lemma_place(l, blanks, op, r, j);
        lemma_place(l, blanks, op, r, j + 1);
        if p(j) {
            assert(s.skip(j).subrange(0, 2)[0] == s[j]);
            assert(s.skip(j).subrange(0, 2)[1] == s[j + 1]);
            lemma_next_outside(s, j);
            if j + 1 < l.len() {
                assert(expr::outside(l, j + 1));
            } else if j + 1 >= end {
                assert(expr::outside(r, j + 1 - end));
            }
            assert(sign =~= symbol(op));
        }
        if j == at && sign == symbol(op) {
            assert(s.skip(j).subrange(0, 2) =~= sign);
        }
    }
    if sign == symbol(op) {
        assert(p(at));
    }
}

proof fn lemma_single(l: Seq<char>, blanks: bool, op: BinOp, r: Seq<char>, sign: char)
    requires
        parts_fit(l, op, r),
        rank(op) == 0,
        symbol(op).len() == 1,
        angle(sign),
    ensures
        expr::top_level_single(bin_text(l, blanks, op, r), sign) == if symbol(op)[0] == sign {
            Some((l.len() + gap(blanks).len()) as int)
        } else {
            None
        },
{
    let s = bin_text(l, blanks, op, r);
    let at = (l.len() + gap(blanks).len()) as int;
    let end = at + symbol(op).len() + gap(blanks).len();
    let p = expr::single_at(s, sign);
    text::lemma_last_below(s.len() as int, p);
    assert forall|j: int| 0 <= j < s.len() implies #[trigger] p(j) == (j == at && symbol(op)[0]
        == sign) by {
        lemma_place(l, blanks, op, r, j);
        if j + 1 < s.len() {
            lemma_place(l, blanks, op, r, j + 1);
        }
        if j > 0 {
            lemma_place(l, blanks, op, r, j - 1);
        }
        if j < l.len() && expr::outside(l, j) && angle(l[j]) {
            assert(paired(l, j));
        } else if j >= end && expr::outside(r, j - end) && angle(r[j - end]) {
            assert(paired(r, j - end));
        }
    }
    if symbol(op)[0] == sign {
        assert(p(at));
    }
}

/// The tier of an operator that is no comparison.
spec fn tier_of(op: BinOp) -> Tier {
    match op {
        BinOp::BitOr => Tier::BitOr,
        BinOp::BitXor => Tier::BitXor,
        BinOp::BitAnd => Tier::BitAnd,
        BinOp::Shl | BinOp::Shr => Tier::Shift,
        BinOp::Add | BinOp::Sub => Tier::Sum,
        _ => Tier::Product,
    }
}

/// The operator of a binary expression stands where it was written.
proof fn lemma_tier_here(l: Seq<char>, blanks: bool, op: BinOp, r: Seq<char>)
    requires
        parts_fit(l, op, r),
        rank(op) >= 1,
    ensures
        ({
            let s = bin_text(l, blanks, op, r);
            let at = (l.len() + gap(blanks).len()) as int;
            &&& 0 < at < s.len()
            &&& expr::outside(s, at)
            &&& expr::tier_op(s, tier_of(op), at) == Some((op, symbol(op).len() as int))
        }),
{
    let s = bin_text(l, blanks, op, r);
    let at = (l.len() + gap(blanks).len()) as int;
    lemma_place(l, blanks, op, r, at);
    if symbol(op).len() == 2 {
        lemma_place(l, blanks, op, r, at + 1);
    }
}

/// No operator of the tier stands behind that of a binary expression.
proof fn lemma_tier_behind(l: Seq<char>, blanks: bool, op: BinOp, r: Seq<char>, j: int)
    requires
        parts_fit(l, op, r),
        rank(op) >= 1,
        l.len() + gap(blanks).len() < j < bin_text(l, blanks, op, r).len(),
    ensures
        !(expr::outside(bin_text(l, blanks, op, r), j) && expr::tier_op(
            bin_text(l, blanks, op, r),
            tier_of(op),
            j,
        ) is Some),
{
    let s = bin_text(l, blanks, op, r);
    let at = (l.len() + gap(blanks).len()) as int;
    let end = at + symbol(op).len() + gap(blanks).len();
    lemma_place(l, blanks, op, r, j);
    if j + 1 < s.len() {
        lemma_place(l, blanks, op, r, j + 1);
    }
    if expr::outside(s, j) && expr::tier_op(s, tier_of(op), j) is Some {
        assert(char_rank(s[j]) == tier_rank(tier_of(op)));
        assert(tier_rank(tier_of(op)) == rank(op));
        if j >= end {
            assert(expr::outside(r, j - end));
        } else {
            assert(symbol(op).len() == 2 && j == at + 1);
            if j + 1 == end {
                assert(s[j + 1] == r[0]);
            }
        }
    }
}

/// The last operator of the loosest rank is where a text is split.
proof fn lemma_split_tier(l: Seq<char>, blanks: bool, op: BinOp, r: Seq<char>)
    requires
        parts_fit(l, op, r),
        rank(op) >= 1,
    ensures
        expr::tier_split(bin_text(l, blanks, op, r), tier_of(op)) == Some((op, l, r)),
{
    let s = bin_text(l, blanks, op, r);
    let at = (l.len() + gap(blanks).len()) as int;
    let tier = tier_of(op);
    let p = expr::operator_at(s, tier);
    lemma_sides(l, blanks, op, r);
    lemma_tier_here(l, blanks, op, r);
    assert(p(at));
    text::lemma_last_below(s.len() as int, p);
    assert forall|j: int| at < j < s.len() implies !#[trigger] p(j) by {
        lemma_tier_behind(l, blanks, op, r, j);
    }
    assert(text::last_below(s.len() as int, p) == Some(at));
}

/// A binary expression is split at its operator.
proof fn lemma_split(l: Seq<char>, blanks: bool, op: BinOp, r: Seq<char>)
    requires
        parts_fit(l, op, r),
    ensures
        expr::binary_split(bin_text(l, blanks, op, r)) == Some((op, l, r)),
{
    if rank(op) == 0 {
        lemma_split_comparison(l, blanks, op, r);
    } else {
        let s = bin_text(l, blanks, op, r);
        lemma_whole_calm(l, blanks, op, r);
        lemma_comparison_none(s);
        lemma_split_tier(l, blanks, op, r);
        if rank(op) > 1 {
            lemma_tier_none(s, rank(op), Tier::BitOr);
        }
        if rank(op) > 2 {
            lemma_tier_none(s, rank(op), Tier::BitXor);
        }
        if rank(op) > 3 {
            lemma_tier_none(s, rank(op), Tier::BitAnd);
        }
        if rank(op) > 4 {
            lemma_tier_none(s, rank(op), Tier::Shift);
        }
        if rank(op) > 5 {
            lemma_tier_none(s, rank(op), Tier::Sum);
        }
    }
}

/// A text with an operator in it is no operand and stands in no parentheses.
proof fn lemma_bin_is_bare(
    l: Seq<char>,
    blanks: bool,
    op: BinOp,
    r: Seq<char>,
    known: Map<Seq<char>, i64>,
)
    requires
        parts_fit(l, op, r),
        names_only(known),
    ensures
        ({
            let s = bin_text(l, blanks, op, r);
            &&& !expr::wrapped(s)
            &&& s != "true"@
            &&& s != "false"@
            &&& numeral::i64_value(s) is Err
            &&& !known.dom().contains(s)
        }),
{
    reveal_strlit("true");
    reveal_strlit("false");
    let s = bin_text(l, blanks, op, r);
    let at = (l.len() + gap(blanks).len()) as int;
    lemma_place(l, blanks, op, r, at);
    assert(char_rank(s[at]) < 7);
    if expr::wrapped(s) {
        let inner = s.subrange(1, s.len() - 1);
        let n = l.len() - 1;
        assert(inner.take(n) =~= l.skip(1));
        brackets::lemma_pair_skip(l, 0, '(', ')');
        assert(l.skip(0) =~= l);
        assert(l[0] == s[0]);
        assert(brackets::pair_depth(inner.take(n), '(', ')') >= 0);
    }
    if s == "true"@ || s == "false"@ {
        assert(char_rank(s[at]) == 7);
    }
    if numeral::i64_value(s) is Ok {
        numeral::lemma_integer_chars(s, i64::MIN as int, i64::MAX as int);
        assert('0' <= s[at] <= '9');
    }
    if known.dom().contains(s) {
        syntax::lemma_name_is_plain(s);
        assert(char_rank(s[at]) == 7);
    }
}

/// A text in parentheses.
#[verifier::spinoff_prover]
#[verifier::rlimit(40)]
proof fn lemma_paren(inner: Seq<char>)
    requires
        expr::balanced(inner),
    ensures
        ({
            let s = seq!['('] + inner + seq![')'];
            &&& expr::wrapped(s)
            &&& expr::balanced(s)
            &&& calm(s, 7)
            &&& s.subrange(1, s.len() - 1) == inner
        }),
{
    let open = seq!['('];
    let close = seq![')'];
    let s = open + inner + close;
    assert(open.drop_last() =~= Seq::empty());
    assert(close.drop_last() =~= Seq::empty());
    reveal_with_fuel(brackets::pair_depth, 2);
    assert(s.subrange(1, s.len() - 1) =~= inner);
    brackets::lemma_pair_add(open, inner, '(', ')');
    brackets::lemma_pair_add(open + inner, close, '(', ')');
    assert forall|k: int| 0 <= k <= s.len() implies #[trigger] brackets::pair_depth(
        s.take(k),
        '(',
        ')',
    ) >= 0 by {
        if k == 0 {
            assert(s.take(k) =~= Seq::empty());
        } else if k <= inner.len() + 1 {
            assert(s.take(k) =~= open + inner.take(k - 1));
            brackets::lemma_pair_add(open, inner.take(k - 1), '(', ')');
        } else {
            assert(s.take(k) =~= s);
        }
    }
    assert forall|i: int| 0 <= i < s.len() && #[trigger] expr::outside(s, i) implies char_rank(s[i])
        >= 7 && (angle(s[i]) ==> paired(s, i)) by {
        if 0 < i <= inner.len() {
            let j = i - 1;
            assert(s.skip(i) =~= inner.skip(j) + close);
            brackets::lemma_pair_add(inner.skip(j), close, '(', ')');
            assert(inner.take(j) + inner.skip(j) =~= inner);
            brackets::lemma_pair_add(inner.take(j), inner.skip(j), '(', ')');
            assert(brackets::pair_depth(inner.take(j), '(', ')') >= 0);
        }
    }
}

/// What is shown of a written expression along its structure.
spec fn settled(t: Tree, known: Map<Seq<char>, i64>) -> bool {
    let s = written(t);
    &&& s.len() > 0
    &&& !text::white(s[0]) && !text::white(s.last())
    &&& char_rank(s.last()) == 7
    &&& expr::balanced(s)
    &&& level(t) >= 0 ==> char_rank(s[0]) == 7
    &&& level(t) >= 1 ==> calm(s, level(t))
    &&& expr::parsed(s, known) == meaning(t, known)
}

/// A text that is calm at one rank is calm at every lower one.
proof fn lemma_calmer(s: Seq<char>, k: int, j: int)
    requires
        calm(s, k),
        j <= k,
    ensures
        calm(s, j),
{
    assert forall|i: int| 0 <= i < s.len() && #[trigger] expr::outside(s, i) implies char_rank(s[i])
        >= j && (angle(s[i]) ==> paired(s, i)) by {}
}

/// What holds of a binary expression as a text.
proof fn lemma_bin_text(l: Seq<char>, blanks: bool, op: BinOp, r: Seq<char>)
    requires
        parts_fit(l, op, r),
    ensures
        ({
            let s = bin_text(l, blanks, op, r);
            &&& s.len() > 0
            &&& s[0] == l[0]
            &&& s.last() == r.last()
            &&& expr::balanced(s)
            &&& text::trimmed(s) == s
            &&& rank(op) >= 1 ==> calm(s, rank(op))
        }),
{
    let m = gap(blanks) + symbol(op) + gap(blanks);
    let s = bin_text(l, blanks, op, r);
    assert(open_text(m)) by {
        assert forall|j: int| 0 <= j < m.len() implies #[trigger] m[j] != '(' && m[j] != ')' by {}
    }
    lemma_open(m);
    lemma_balanced_add(l, m);
    lemma_balanced_add(l + m, r);
    if rank(op) >= 1 {
        lemma_whole_calm(l, blanks, op, r);
    }
    assert(s[0] == l[0]);
    assert(s.last() == r.last());
    text::lemma_trimmed_already(s);
}

/// A binary expression is parsed to the expressions of its sides.
proof fn lemma_bin_parsed(
    l: Seq<char>,
    blanks: bool,
    op: BinOp,
    r: Seq<char>,
    known: Map<Seq<char>, i64>,
    a: Option<Expr>,
    b: Option<Expr>,
)
    requires
        parts_fit(l, op, r),
        names_only(known),
        expr::parsed(l, known) == a,
        expr::parsed(r, known) == b,
    ensures
        expr::parsed(bin_text(l, blanks, op, r), known) == match (a, b) {
            (Some(x), Some(y)) => Some(
                Expr::BinOp { op, left: Box::new(x), right: Box::new(y) },
            ),
            _ => None,
        },
{
    lemma_bin_text(l, blanks, op, r);
    lemma_split(l, blanks, op, r);
    lemma_bin_is_bare(l, blanks, op, r, known);
}

proof fn lemma_bin(
    t: Tree,
    op: BinOp,
    blanks: bool,
    left: Tree,
    right: Tree,
    known: Map<Seq<char>, i64>,
)
    requires
        t == (Tree::Bin { op, blanks, left: Box::new(left), right: Box::new(right) }),
        fits(t, known),
        names_only(known),
        settled(left, known),
        settled(right, known),
    ensures
        settled(t, known),
{
    let l = written(left);
    let r = written(right);
    let s = written(t);
    assert(s == bin_text(l, blanks, op, r));
    lemma_calmer(l, level(left), rank(op));
    lemma_calmer(l, level(left), 1);
    lemma_calmer(r, level(right), rank(op) + 1);
    assert(parts_fit(l, op, r));
    lemma_bin_text(l, blanks, op, r);
    lemma_bin_parsed(l, blanks, op, r, known, meaning(left, known), meaning(right, known));
}

#[verifier::spinoff_prover]
#[verifier::rlimit(40)]
proof fn lemma_un(t: Tree, sign: UnOp, operand: Tree, known: Map<Seq<char>, i64>)
    requires
        t == (Tree::Un { sign, operand: Box::new(operand) }),
        fits(t, known),
        names_only(known),
        settled(operand, known),
    ensures
        settled(t, known),
{
    reveal_strlit("true");
    reveal_strlit("false");
    let c = if sign == UnOp::Neg {
        '-'
    } else {
        '~'
    };
    let front = seq![c];
    let r = written(operand);
    let s = written(t);
    assert(s =~= front + r);
    assert(open_text(front));
    lemma_open(front);
    lemma_balanced_add(front, r);
    assert(s[0] == c);
    assert(s.last() == r.last());
    assert(s.skip(1) =~= r);
    text::lemma_trimmed_already(s);
    assert forall|i: int| 0 < i < s.len() && #[trigger] expr::outside(s, i) implies char_rank(s[i])
        >= 7 && (angle(s[i]) ==> paired(s, i)) by {
        lemma_outside_add(front, r, i);
        assert(expr::outside(r, i - 1));
    }
    lemma_comparison_none(s);
    lemma_tier_none(s, 7, Tier::BitOr);
    lemma_tier_none(s, 7, Tier::BitXor);
    lemma_tier_none(s, 7, Tier::BitAnd);
    lemma_tier_none(s, 7, Tier::Shift);
    lemma_tier_none(s, 7, Tier::Sum);
    lemma_tier_none(s, 7, Tier::Product);
    if numeral::i64_value(s) is Ok {
        numeral::lemma_integer_chars(s, i64::MIN as int, i64::MAX as int);
        assert('0' <= s[1] <= '9');
        assert(s[1] == r[0]);
        match operand {
            Tree::Leaf(name) => {
                syntax::lemma_word_start(name);
            },
            Tree::Paren(inner) => {
                assert(r[0] == '(');
            },
            _ => {},
        }
    }
    if known.dom().contains(s) {
        syntax::lemma_name_is_plain(s);
    }
}

proof fn lemma_settled(t: Tree, known: Map<Seq<char>, i64>)
    requires
        fits(t, known),
        names_only(known),
    ensures
        settled(t, known),
    decreases t,
{
    match t {
        Tree::Leaf(s) => {
            if comparisons::operand_value(s, known) is Some {
                lemma_leaf(s, known);
            } else {
                lemma_unbound(s, known);
            }
            lemma_open(s);
        },
        Tree::Paren(inner) => {
            lemma_settled(*inner, known);
            let text = written(*inner);
            lemma_paren(text);
            let s = written(t);
            text::lemma_trimmed_already(s);
        },
        Tree::Bin { op, blanks, left, right } => {
            lemma_settled(*left, known);
            lemma_settled(*right, known);
            lemma_bin(t, op, blanks, *left, *right, known);
        },
        Tree::Un { sign, operand } => {
            lemma_settled(*operand, known);
            lemma_un(t, sign, *operand, known);
        },
    }
}

/// An expression is read as it was written: with parentheses wherever the
/// precedence of the operators asks for them, and more where one likes, its
/// text is parsed to the expression that is meant. So products bind more
/// tightly than sums, these more tightly than shifts, `&`, `^`, `|` and the
/// comparisons, in this order, and operators of one rank associate to the left.
/// An expression with a variable that has no value is none.
pub proof fn law_expression_is_read_back(t: Tree, known: Map<Seq<char>, i64>)
    requires
        fits(t, known),
        names_only(known),
    ensures
        expr::parsed(written(t), known) == meaning(t, known),
{
    lemma_settled(t, known);
}

} // verus!
