//! Integer expressions: the syntax tree and its parser.

use vstd::prelude::*;

use crate::brackets;
use crate::numeral;
use crate::scope::Scope;
use crate::text;

verus! {

/// A binary operator.
#[derive(Debug, Clone, Copy, PartialEq, Eq, Structural)]
pub enum BinOp {
    Add,
    Sub,
    Mul,
    Div,
    Mod,
    BitAnd,
    BitOr,
    BitXor,
    Shl,
    Shr,
    Eq,
    Neq,
    Lt,
    Gt,
    Leq,
    Geq,
}

/// A unary operator.
#[derive(Debug, Clone, Copy, PartialEq, Eq, Structural)]
pub enum UnOp {
    /// Arithmetic negation, `-`.
    Neg,
    /// Bitwise complement, `~`.
    Not,
}

/// An integer expression whose variables have been replaced by their values.
#[derive(Debug)]
pub enum Expr {
    Literal(i64),
    UnOp { sign: UnOp, operand: Box<Expr> },
    BinOp { op: BinOp, left: Box<Expr>, right: Box<Expr> },
}

/// The levels of binding strength below the comparisons, loosest first.
#[derive(Debug, Clone, Copy, PartialEq, Eq, Structural)]
pub enum Tier {
    BitOr,
    BitXor,
    BitAnd,
    Shift,
    Sum,
    Product,
}

/// The operator of the tier that stands at `s[i]`, with its number of characters.
pub open spec fn tier_op(s: Seq<char>, tier: Tier, i: int) -> Option<(BinOp, int)> {
    let c = s[i];
    match tier {
        Tier::BitOr => if c == '|' {
            Some((BinOp::BitOr, 1))
        } else {
            None
        },
        Tier::BitXor => if c == '^' {
            Some((BinOp::BitXor, 1))
        } else {
            None
        },
        Tier::BitAnd => if c == '&' {
            Some((BinOp::BitAnd, 1))
        } else {
            None
        },
        Tier::Shift => if i + 1 < s.len() && c == '<' && s[i + 1] == '<' {
            Some((BinOp::Shl, 2))
        } else if i + 1 < s.len() && c == '>' && s[i + 1] == '>' {
            Some((BinOp::Shr, 2))
        } else {
            None
        },
        Tier::Sum => if c == '+' {
            Some((BinOp::Add, 1))
        } else if c == '-' {
            Some((BinOp::Sub, 1))
        } else {
            None
        },
        Tier::Product => if c == '*' {
            Some((BinOp::Mul, 1))
        } else if c == '/' {
            Some((BinOp::Div, 1))
        } else if c == '%' {
            Some((BinOp::Mod, 1))
        } else {
            None
        },
    }
}

/// The number of characters of the operator of the tier at `s[i]`.
pub open spec fn op_width(s: Seq<char>, tier: Tier, i: int) -> int {
    match tier_op(s, tier, i) {
        Some((_, width)) => width,
        None => 0,
    }
}

/// The index `i` is outside every parenthesis of `s`, counted from the right.
pub open spec fn outside(s: Seq<char>, i: int) -> bool {
    brackets::pair_depth(s.skip(i), '(', ')') == 0
}

/// "An operator of the tier stands at this index, outside every parenthesis
/// and between two operands that are not blank."
pub open spec fn operator_at(s: Seq<char>, tier: Tier) -> spec_fn(int) -> bool {
    |i: int|
        {
            &&& i > 0
            &&& tier_op(s, tier, i) is Some
            &&& outside(s, i)
            &&& text::trimmed(s.take(i)).len() > 0
            &&& text::trimmed(s.skip(i + op_width(s, tier, i))).len() > 0
        }
}

/// `s` split at the last operator of the tier.
pub open spec fn tier_split(s: Seq<char>, tier: Tier) -> Option<(BinOp, Seq<char>, Seq<char>)> {
    match text::last_below(s.len() as int, operator_at(s, tier)) {
        Some(i) => {
            let (op, width) = tier_op(s, tier, i)->0;
            Some((op, text::trimmed(s.take(i)), text::trimmed(s.skip(i + width))))
        },
        None => None,
    }
}

/// "The text `op` stands at this index, outside every parenthesis and not at
/// the very start."
pub open spec fn op_at(s: Seq<char>, op: Seq<char>) -> spec_fn(int) -> bool {
    |i: int| i > 0 && op.is_prefix_of(s.skip(i)) && outside(s, i)
}

/// The last place outside every parenthesis where the operator `op` stands.
pub open spec fn top_level_op(s: Seq<char>, op: Seq<char>) -> Option<int> {
    text::last_below(s.len() - op.len() + 1, op_at(s, op))
}

/// "The comparison sign `c` stands at this index, outside every parenthesis,
/// and is no part of a longer operator."
pub open spec fn single_at(s: Seq<char>, c: char) -> spec_fn(int) -> bool {
    |i: int|
        {
            &&& i > 0
            &&& s[i] == c
            &&& outside(s, i)
            &&& !(i + 1 < s.len() && (s[i + 1] == '=' || s[i + 1] == '<' || s[i + 1] == '>'))
            &&& !(s[i - 1] == '!' || s[i - 1] == '<' || s[i - 1] == '>')
        }
}

/// The last place outside every parenthesis where the sign `c` stands alone.
pub open spec fn top_level_single(s: Seq<char>, c: char) -> Option<int> {
    text::last_below(s.len() as int, single_at(s, c))
}

/// `s` split at `pos`, where an operator of `width` characters stands, if
/// neither side is blank.
pub open spec fn split_at(s: Seq<char>, op: BinOp, pos: Option<int>, width: int) -> Option<
    (BinOp, Seq<char>, Seq<char>),
> {
    match pos {
        Some(i) => if text::trimmed(s.take(i)).len() > 0 && text::trimmed(s.skip(i + width)).len()
            > 0 {
            Some((op, text::trimmed(s.take(i)), text::trimmed(s.skip(i + width))))
        } else {
            None
        },
        None => None,
    }
}

/// The first of two choices that is there.
pub open spec fn or_else<T>(a: Option<T>, b: Option<T>) -> Option<T> {
    if a is Some {
        a
    } else {
        b
    }
}

/// `s` split at a comparison: `==`, `!=`, `<=`, `>=`, `<`, `>` in this order.
pub open spec fn comparison_split(s: Seq<char>) -> Option<(BinOp, Seq<char>, Seq<char>)> {
    or_else(
        split_at(s, BinOp::Eq, top_level_op(s, "=="@), 2),
        or_else(
            split_at(s, BinOp::Neq, top_level_op(s, "!="@), 2),
            or_else(
                split_at(s, BinOp::Leq, top_level_op(s, "<="@), 2),
                or_else(
                    split_at(s, BinOp::Geq, top_level_op(s, ">="@), 2),
                    or_else(
                        split_at(s, BinOp::Lt, top_level_single(s, '<'), 1),
                        split_at(s, BinOp::Gt, top_level_single(s, '>'), 1),
                    ),
                ),
            ),
        ),
    )
}

/// `s` split at its loosest binary operator.
pub open spec fn binary_split(s: Seq<char>) -> Option<(BinOp, Seq<char>, Seq<char>)> {
    or_else(
        comparison_split(s),
        or_else(
            tier_split(s, Tier::BitOr),
            or_else(
                tier_split(s, Tier::BitXor),
                or_else(
                    tier_split(s, Tier::BitAnd),
                    or_else(
                        tier_split(s, Tier::Shift),
                        or_else(tier_split(s, Tier::Sum), tier_split(s, Tier::Product)),
                    ),
                ),
            ),
        ),
    )
}

/// The parentheses of `s` are balanced.
pub open spec fn balanced(s: Seq<char>) -> bool {
    &&& forall|k: int| 0 <= k <= s.len() ==> #[trigger] brackets::pair_depth(s.take(k), '(', ')') >= 0
    &&& brackets::pair_depth(s, '(', ')') == 0
}

/// `s` is one expression in parentheses.
pub open spec fn wrapped(s: Seq<char>) -> bool {
    s.len() >= 2 && s[0] == '(' && s.last() == ')' && balanced(s.subrange(1, s.len() - 1))
}

/// The expression that a text writes: `None` for a blank text, an unbound
/// variable or anything else that is no expression.
pub open spec fn parsed(text: Seq<char>, known: Map<Seq<char>, i64>) -> Option<Expr>
    decreases text.len(),
{
    let s = text::trimmed(text);
    proof {
        text::lemma_trim_len(text);
        lemma_binary_split_len(s);
    }
    if s.len() == 0 {
        None
    } else if wrapped(s) {
        parsed(s.subrange(1, s.len() - 1), known)
    } else if s == "true"@ {
        Some(Expr::Literal(1))
    } else if s == "false"@ {
        Some(Expr::Literal(0))
    } else if let Ok(n) = numeral::i64_value(s) {
        Some(Expr::Literal(n as i64))
    } else if known.dom().contains(s) {
        Some(Expr::Literal(known[s]))
    } else if let Some((op, l, r)) = binary_split(s) {
        match (parsed(l, known), parsed(r, known)) {
            (Some(left), Some(right)) => Some(
                Expr::BinOp { op, left: Box::new(left), right: Box::new(right) },
            ),
            _ => None,
        }
    } else if s[0] == '-' || s[0] == '~' {
        match parsed(s.skip(1), known) {
            Some(operand) => Some(
                Expr::UnOp {
                    sign: if s[0] == '-' {
                        UnOp::Neg
                    } else {
                        UnOp::Not
                    },
                    operand: Box::new(operand),
                },
            ),
            None => None,
        }
    } else {
        None
    }
}

proof fn lemma_split_at_len(s: Seq<char>, op: BinOp, pos: Option<int>, width: int)
    requires
        width > 0,
        pos matches Some(i) ==> 0 < i && i + width <= s.len(),
    ensures
        split_at(s, op, pos, width) matches Some((_, l, r)) ==> l.len() < s.len() && r.len()
            < s.len(),
{
    if let Some(i) = pos {
        text::lemma_trim_len(s.take(i));
        text::lemma_trim_len(s.skip(i + width));
    }
}

proof fn lemma_tier_split_len(s: Seq<char>, tier: Tier)
    ensures
        tier_split(s, tier) matches Some((_, l, r)) ==> l.len() < s.len() && r.len() < s.len(),
{
    text::lemma_last_below(s.len() as int, operator_at(s, tier));
    if let Some(i) = text::last_below(s.len() as int, operator_at(s, tier)) {
        text::lemma_trim_len(s.take(i));
        text::lemma_trim_len(s.skip(i + op_width(s, tier, i)));
    }
}

/// Both operands of a split are shorter than the whole.
pub proof fn lemma_binary_split_len(s: Seq<char>)
    ensures
        binary_split(s) matches Some((_, l, r)) ==> l.len() < s.len() && r.len() < s.len(),
{
    reveal_strlit("==");
    reveal_strlit("!=");
    reveal_strlit("<=");
    reveal_strlit(">=");
    text::lemma_last_below(s.len() - 1, op_at(s, "=="@));
    text::lemma_last_below(s.len() - 1, op_at(s, "!="@));
    text::lemma_last_below(s.len() - 1, op_at(s, "<="@));
    text::lemma_last_below(s.len() - 1, op_at(s, ">="@));
    text::lemma_last_below(s.len() as int, single_at(s, '<'));
    text::lemma_last_below(s.len() as int, single_at(s, '>'));
    lemma_split_at_len(s, BinOp::Eq, top_level_op(s, "=="@), 2);
    lemma_split_at_len(s, BinOp::Neq, top_level_op(s, "!="@), 2);
    lemma_split_at_len(s, BinOp::Leq, top_level_op(s, "<="@), 2);
    lemma_split_at_len(s, BinOp::Geq, top_level_op(s, ">="@), 2);
    lemma_split_at_len(s, BinOp::Lt, top_level_single(s, '<'), 1);
    lemma_split_at_len(s, BinOp::Gt, top_level_single(s, '>'), 1);
    lemma_tier_split_len(s, Tier::BitOr);
    lemma_tier_split_len(s, Tier::BitXor);
    lemma_tier_split_len(s, Tier::BitAnd);
    lemma_tier_split_len(s, Tier::Shift);
    lemma_tier_split_len(s, Tier::Sum);
    lemma_tier_split_len(s, Tier::Product);
}

/// The operator of the tier at `v[i]`, with its number of characters.
fn find_tier_op(v: &Vec<char>, tier: Tier, i: usize) -> (r: Option<(BinOp, usize)>)
    requires
        i < v.len(),
    ensures
        match r {
            Some((op, width)) => tier_op(v@, tier, i as int) == Some((op, width as int)) && i
                + width <= v.len() && width > 0,
            None => tier_op(v@, tier, i as int) is None,
        },
{
    let c = v[i];
    match tier {
        Tier::BitOr => if c == '|' {
            Some((BinOp::BitOr, 1))
        } else {
            None
        },
        Tier::BitXor => if c == '^' {
            Some((BinOp::BitXor, 1))
        } else {
            None
        },
        Tier::BitAnd => if c == '&' {
            Some((BinOp::BitAnd, 1))
        } else {
            None
        },
        Tier::Shift => if i + 1 < v.len() && c == '<' && v[i + 1] == '<' {
            Some((BinOp::Shl, 2))
        } else if i + 1 < v.len() && c == '>' && v[i + 1] == '>' {
            Some((BinOp::Shr, 2))
        } else {
            None
        },
        Tier::Sum => if c == '+' {
            Some((BinOp::Add, 1))
        } else if c == '-' {
            Some((BinOp::Sub, 1))
        } else {
            None
        },
        Tier::Product => if c == '*' {
            Some((BinOp::Mul, 1))
        } else if c == '/' {
            Some((BinOp::Div, 1))
        } else if c == '%' {
            Some((BinOp::Mod, 1))
        } else {
            None
        },
    }
}

/// The view of a split.
pub open spec fn split_view(r: Option<(BinOp, &str, &str)>) -> Option<
    (BinOp, Seq<char>, Seq<char>),
> {
    match r {
        Some((op, left, right)) => Some((op, left@, right@)),
        None => None,
    }
}

/// The change of the parenthesis depth at `c`, seen from the right.
fn paren_step(c: char) -> (d: i128)
    ensures
        d == brackets::pair_step(c, '(', ')'),
        -1 <= d <= 1,
{
    if c == '(' {
        1
    } else if c == ')' {
        -1
    } else {
        0
    }
}

/// Split a trimmed expression at the last operator of a tier.
fn split_tier<'a>(s: &'a str, tier: Tier) -> (r: Option<(BinOp, &'a str, &'a str)>)
    ensures
        split_view(r) == tier_split(s@, tier),
{
    let v = text::chars_of(s);
    let mut n: usize = v.len();
    let mut d: i128 = 0;
    assert(s@.skip(n as int) =~= Seq::empty());
    while n > 0
        invariant
            n <= v.len(),
            v@ == s@,
            d == brackets::pair_depth(s@.skip(n as int), '(', ')'),
            -(v.len() - n) <= d <= v.len() - n,
            text::last_below(s@.len() as int, operator_at(s@, tier)) == text::last_below(
                n as int,
                operator_at(s@, tier),
            ),
        decreases n,
    {
        n -= 1;
        proof {
            brackets::lemma_pair_skip(s@, n as int, '(', ')');
        }
        d = d + paren_step(v[n]);
        if n > 0 && d == 0 {
            if let Some((op, width)) = find_tier_op(&v, tier, n) {
                let left = text::trim(text::head(s, n));
                let right = text::trim(text::tail(s, n + width));
                if left.unicode_len() > 0 && right.unicode_len() > 0 {
                    return Some((op, left, right));
                }
            }
        }
    }
    None
}

/// Find a multi-character operator outside every parenthesis, scanning right
/// to left.
pub fn find_top_level_op(expr: &str, op: &str) -> (r: Option<usize>)
    requires
        op@.len() > 0,
    ensures
        text::opt_int(r) == top_level_op(expr@, op@),
        r matches Some(i) ==> 0 < i && i + op@.len() <= expr@.len(),
{
    let v = text::chars_of(expr);
    let k: usize = op.unicode_len();
    let mut n: usize = v.len();
    let mut d: i128 = 0;
    assert(expr@.skip(n as int) =~= Seq::empty());
    while n > 0
        invariant
            n <= v.len(),
            v@ == expr@,
            0 < k == op@.len(),
            d == brackets::pair_depth(expr@.skip(n as int), '(', ')'),
            -(v.len() - n) <= d <= v.len() - n,
            top_level_op(expr@, op@) == text::last_below(
                if n < v.len() - k + 1 {
                    n as int
                } else {
                    v.len() - k + 1
                },
                op_at(expr@, op@),
            ),
        decreases n,
    {
        n -= 1;
        proof {
            brackets::lemma_pair_skip(expr@, n as int, '(', ')');
        }
        d = d + paren_step(v[n]);
        if n > 0 && d == 0 && k <= v.len() - n {
            if text::starts_with(text::tail(expr, n), op) {
                return Some(n);
            }
        }
    }
    None
}

/// Find a comparison sign (`<` or `>`) outside every parenthesis that is no
/// part of a longer operator.
pub fn find_top_level_single_comparison(expr: &str, op: &str) -> (r: Option<usize>)
    ensures
        op@.len() == 0 ==> r is None,
        op@.len() > 0 ==> text::opt_int(r) == top_level_single(expr@, op@[0]),
        r matches Some(i) ==> 0 < i < expr@.len(),
{
    if op.unicode_len() == 0 {
        return None;
    }
    let c = op.get_char(0);
    let v = text::chars_of(expr);
    let mut n: usize = v.len();
    let mut d: i128 = 0;
    assert(expr@.skip(n as int) =~= Seq::empty());
    while n > 0
        invariant
            n <= v.len(),
            v@ == expr@,
            d == brackets::pair_depth(expr@.skip(n as int), '(', ')'),
            -(v.len() - n) <= d <= v.len() - n,
            op@.len() > 0,
            c == op@[0],
            top_level_single(expr@, c) == text::last_below(n as int, single_at(expr@, c)),
        decreases n,
    {
        n -= 1;
        proof {
            brackets::lemma_pair_skip(expr@, n as int, '(', ')');
        }
        d = d + paren_step(v[n]);
        if n > 0 && d == 0 && v[n] == c {
            let longer = n + 1 < v.len() && (v[n + 1] == '=' || v[n + 1] == '<' || v[n + 1] == '>');
            let tail = v[n - 1] == '!' || v[n - 1] == '<' || v[n - 1] == '>';
            if !longer && !tail {
                return Some(n);
            }
        }
    }
    None
}

/// Split a trimmed expression at `pos`, if neither side is blank.
fn split_sides<'a>(s: &'a str, op: BinOp, pos: Option<usize>, width: usize) -> (r: Option<
    (BinOp, &'a str, &'a str),
>)
    requires
        pos matches Some(i) ==> i + width <= s@.len(),
    ensures
        split_view(r) == split_at(s@, op, text::opt_int(pos), width as int),
{
    match pos {
        Some(i) => {
            let n: usize = s.unicode_len();
            assert(i + width <= n);
            let left = text::trim(text::head(s, i));
            let right = text::trim(text::tail(s, i + width));
            if left.unicode_len() > 0 && right.unicode_len() > 0 {
                Some((op, left, right))
            } else {
                None
            }
        },
        None => None,
    }
}

/// Split a trimmed expression at a comparison.
fn split_comparison<'a>(s: &'a str) -> (r: Option<(BinOp, &'a str, &'a str)>)
    ensures
        split_view(r) == comparison_split(s@),
{
    proof {
        reveal_strlit("==");
        reveal_strlit("!=");
        reveal_strlit("<=");
        reveal_strlit(">=");
        reveal_strlit("<");
        reveal_strlit(">");
    }
    let eq = split_sides(s, BinOp::Eq, find_top_level_op(s, "=="), 2);
    if eq.is_some() {
        return eq;
    }
    let neq = split_sides(s, BinOp::Neq, find_top_level_op(s, "!="), 2);
    if neq.is_some() {
        return neq;
    }
    let leq = split_sides(s, BinOp::Leq, find_top_level_op(s, "<="), 2);
    if leq.is_some() {
        return leq;
    }
    let geq = split_sides(s, BinOp::Geq, find_top_level_op(s, ">="), 2);
    if geq.is_some() {
        return geq;
    }
    let lt = split_sides(s, BinOp::Lt, find_top_level_single_comparison(s, "<"), 1);
    if lt.is_some() {
        return lt;
    }
    split_sides(s, BinOp::Gt, find_top_level_single_comparison(s, ">"), 1)
}

/// Split a trimmed expression at its loosest binary operator.
fn split_binary<'a>(s: &'a str) -> (r: Option<(BinOp, &'a str, &'a str)>)
    ensures
        split_view(r) == binary_split(s@),
{
    let comparison = split_comparison(s);
    if comparison.is_some() {
        return comparison;
    }
    let bit_or = split_tier(s, Tier::BitOr);
    if bit_or.is_some() {
        return bit_or;
    }
    let bit_xor = split_tier(s, Tier::BitXor);
    if bit_xor.is_some() {
        return bit_xor;
    }
    let bit_and = split_tier(s, Tier::BitAnd);
    if bit_and.is_some() {
        return bit_and;
    }
    let shift = split_tier(s, Tier::Shift);
    if shift.is_some() {
        return shift;
    }
    let sum = split_tier(s, Tier::Sum);
    if sum.is_some() {
        return sum;
    }
    split_tier(s, Tier::Product)
}

/// Whether a trimmed text is one expression in parentheses.
fn is_wrapped(s: &str) -> (b: bool)
    ensures
        b == wrapped(s@),
{
    let v = text::chars_of(s);
    if v.len() < 2 || v[0] != '(' || v[v.len() - 1] != ')' {
        return false;
    }
    let n: usize = v.len() - 1;
    let ghost inner = s@.subrange(1, n as int);
    let mut i: usize = 1;
    let mut d: i128 = 0;
    assert(inner.take(0) =~= Seq::empty());
    while i < n
        invariant
            1 <= i <= n,
            n == v.len() - 1,
            v@ == s@,
            inner == s@.subrange(1, n as int),
            d == brackets::pair_depth(inner.take(i - 1), '(', ')'),
            0 <= d <= i,
            forall|k: int|
                0 <= k <= i - 1 ==> #[trigger] brackets::pair_depth(inner.take(k), '(', ')') >= 0,
        decreases n - i,
    {
        proof {
            brackets::lemma_pair_take(inner, i - 1, '(', ')');
        }
        d = d + paren_step(v[i]);
        if d < 0 {
            assert(brackets::pair_depth(inner.take(i as int), '(', ')') < 0);
            return false;
        }
        i += 1;
    }
    assert(inner.take(n - 1) =~= inner);
    d == 0
}

/// Parse an expression, replacing each variable by its value in `known`.
pub fn parse_expr(expr: &str, known: &Scope<i64>) -> (r: Option<Expr>)
    ensures
        r == parsed(expr@, known@),
    decreases expr@.len(),
{
    let s = text::trim(expr);
    proof {
        text::lemma_trim_len(expr@);
        lemma_binary_split_len(s@);
    }
    let n: usize = s.unicode_len();
    if n == 0 {
        return None;
    }
    if is_wrapped(s) {
        return parse_expr(text::slice(s, 1, n - 1), known);
    }
    if text::str_eq(s, "true") {
        return Some(Expr::Literal(1));
    }
    if text::str_eq(s, "false") {
        return Some(Expr::Literal(0));
    }
    if let Ok(value) = numeral::parse_i64(s) {
        return Some(Expr::Literal(value));
    }
    if let Some(value) = known.get(s) {
        return Some(Expr::Literal(*value));
    }
    if let Some((op, l, r)) = split_binary(s) {
        match parse_expr(l, known) {
            Some(left) => match parse_expr(r, known) {
                Some(right) => {
                    return Some(
                        Expr::BinOp { op, left: Box::new(left), right: Box::new(right) },
                    );
                },
                None => {
                    return None;
                },
            },
            None => {
                return None;
            },
        }
    }
    let first = s.get_char(0);
    if first == '-' || first == '~' {
        match parse_expr(text::tail(s, 1), known) {
            Some(operand) => {
                let sign = if first == '-' {
                    UnOp::Neg
                } else {
                    UnOp::Not
                };
                return Some(Expr::UnOp { sign, operand: Box::new(operand) });
            },
            None => {
                return None;
            },
        }
    }
    None
}

} // verus!
