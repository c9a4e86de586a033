//! A symbolic stack that mirrors the stack of the virtual machine.
//!
//! The machine knows no variable names. The tracker follows the same pushes,
//! swaps and operations with a name beside each value, and so tells which
//! variable or derived expression a slot of the stack holds.

use vstd::prelude::*;

use crate::expr;
use crate::numeral;
use crate::scope::Scope;
use crate::text;

verus! {

/// A slot of the stack.
#[derive(Debug, Clone)]
pub struct StackEntry {
    /// The value on the machine's stack.
    pub value: i64,
    /// The name, if the value has one.
    pub name: Option<String>,
}

impl View for StackEntry {
    type V = (i64, Option<Seq<char>>);

    open spec fn view(&self) -> (i64, Option<Seq<char>>) {
        (self.value, text::opt_text(self.name))
    }
}

/// The symbolic stack.
#[derive(Debug, Clone)]
pub struct StackTracker {
    stack: Vec<StackEntry>,
}

impl View for StackTracker {
    type V = Seq<(i64, Option<Seq<char>>)>;

    /// The slots from the bottom to the top.
    closed spec fn view(&self) -> Seq<(i64, Option<Seq<char>>)> {
        self.stack@.map_values(|e: StackEntry| e@)
    }
}

/// The operations that the tracker derives names for.
#[derive(Debug, Clone, Copy, PartialEq, Eq, Structural)]
pub enum ArithOp {
    Add,
    Sub,
    Mul,
    Div,
    Mod,
}

/// The infix symbol of an operation.
pub open spec fn symbol_of(op: ArithOp) -> Seq<char> {
    match op {
        ArithOp::Add => "+"@,
        ArithOp::Sub => "-"@,
        ArithOp::Mul => "*"@,
        ArithOp::Div => "/"@,
        ArithOp::Mod => "%"@,
    }
}

impl ArithOp {
    /// The infix symbol.
    pub fn symbol(self) -> (r: &'static str)
        ensures
            r@ == symbol_of(self),
    {
        match self {
            ArithOp::Add => "+",
            ArithOp::Sub => "-",
            ArithOp::Mul => "*",
            ArithOp::Div => "/",
            ArithOp::Mod => "%",
        }
    }
}

/// How a slot appears in a derived name: by its own name, or else its value.
pub open spec fn shown(e: (i64, Option<Seq<char>>)) -> Seq<char> {
    match e.1 {
        Some(name) => name,
        None => numeral::int_text(e.0 as int),
    }
}

/// The stack after a binary operation: the two upper slots make room for the
/// result, which is named after them. On a stack of fewer slots the result has
/// no name.
pub open spec fn operated(
    s: Seq<(i64, Option<Seq<char>>)>,
    op: ArithOp,
    result: i64,
) -> Seq<(i64, Option<Seq<char>>)> {
    if s.len() >= 2 {
        let name = shown(s[s.len() - 2]) + " "@ + symbol_of(op) + " "@ + shown(s[s.len() - 1]);
        s.take(s.len() - 2).push((result, Some(name)))
    } else {
        seq![(result, None)]
    }
}

/// The stack with two slots exchanged, counted from the top; unchanged if it
/// does not have both.
pub open spec fn swapped<T>(s: Seq<T>, i: nat, j: nat) -> Seq<T> {
    if i < s.len() && j < s.len() {
        let a = s.len() - 1 - i;
        let b = s.len() - 1 - j;
        s.update(a, s[b]).update(b, s[a])
    } else {
        s
    }
}

/// The stack with a copy of a slot pushed, counted from the top; unchanged if
/// it does not have the slot.
pub open spec fn duplicated<T>(s: Seq<T>, i: nat) -> Seq<T> {
    if i < s.len() {
        s.push(s[s.len() - 1 - i])
    } else {
        s
    }
}

/// The named slots from the bottom to the top.
pub open spec fn named_slots(s: Seq<(i64, Option<Seq<char>>)>) -> Seq<(Seq<char>, i64)>
    decreases s.len(),
{
    if s.len() == 0 {
        Seq::empty()
    } else {
        let done = named_slots(s.drop_last());
        match s.last().1 {
            Some(name) => done.push((name, s.last().0)),
            None => done,
        }
    }
}

/// "The slot at this index has the name."
pub open spec fn slot_named(s: Seq<(i64, Option<Seq<char>>)>, name: Seq<char>) -> spec_fn(
    int,
) -> bool {
    |i: int| s[i].1 == Some(name)
}

/// The value of the uppermost slot of a name.
pub open spec fn looked_up(s: Seq<(i64, Option<Seq<char>>)>, name: Seq<char>) -> Option<i64> {
    match text::last_below(s.len() as int, slot_named(s, name)) {
        Some(i) => Some(s[i].0),
        None => None,
    }
}

/// The views of a list of named values.
pub open spec fn named_views(v: Seq<(String, i64)>) -> Seq<(Seq<char>, i64)> {
    v.map_values(|p: (String, i64)| (p.0@, p.1))
}

fn copy_entry(e: &StackEntry) -> (r: StackEntry)
    ensures
        r@ == e@,
{
    StackEntry {
        value: e.value,
        name: match &e.name {
            Some(name) => Some(name.clone()),
            None => None,
        },
    }
}

fn show(e: (i64, Option<String>)) -> (r: String)
    ensures
        r@ == shown((e.0, text::opt_text(e.1))),
{
    match e.1 {
        Some(name) => name,
        None => numeral::i64_to_string(e.0),
    }
}

impl StackTracker {
    /// The empty stack.
    pub fn new() -> (r: Self)
        ensures
            r@ == Seq::<(i64, Option<Seq<char>>)>::empty(),
    {
        let r = StackTracker { stack: Vec::new() };
        assert(r@ =~= Seq::empty());
        r
    }

    /// Push a value with an optional name.
    pub fn push(&mut self, value: i64, name: Option<String>)
        ensures
            final(self)@ == old(self)@.push((value, text::opt_text(name))),
    {
        let ghost before = self@;
        let e = StackEntry { value, name };
        self.stack.push(e);
        assert(self@ =~= before.push(e@));
    }

    /// Pop the top; `None` from an empty stack.
    pub fn pop(&mut self) -> (r: Option<(i64, Option<String>)>)
        ensures
            match r {
                Some((value, name)) => {
                    &&& old(self)@.len() > 0
                    &&& (value, text::opt_text(name)) == old(self)@.last()
                    &&& final(self)@ == old(self)@.drop_last()
                },
                None => old(self)@.len() == 0 && final(self)@ == old(self)@,
            },
    {
        let ghost before = self@;
        match self.stack.pop() {
            Some(e) => {
                assert(self@ =~= before.drop_last());
                Some((e.value, e.name))
            },
            None => None,
        }
    }

    /// Apply a binary operation: pop the right and then the left operand, and
    /// push the result under a derived name such as `a + b`. The result comes
    /// from the machine.
    pub fn apply_arithmetic(&mut self, op: ArithOp, result_value: i64)
        ensures
            final(self)@ == operated(old(self)@, op, result_value),
    {
        let ghost before = self@;
        let right = self.pop();
        let left = self.pop();
        let derived: Option<String> = match left {
            Some(left) => match right {
                Some(right) => {
                    let l = show(left);
                    let r = show(right);
                    let mut name = text::concat3(l.as_str(), " ", op.symbol());
                    name.append(" ");
                    name.append(r.as_str());
                    Some(name)
                },
                None => None,
            },
            None => None,
        };
        assert(self@ =~= if before.len() >= 2 {
            before.take(before.len() - 2)
        } else {
            Seq::empty()
        });
        self.push(result_value, derived);
        assert(self@ =~= operated(before, op, result_value));
    }

    /// Exchange the slots `i` and `j`, counted from the top.
    pub fn apply_swap(&mut self, i: usize, j: usize)
        ensures
            final(self)@ == swapped(old(self)@, i as nat, j as nat),
    {
        let ghost before = self@;
        let len: usize = self.stack.len();
        if i >= len || j >= len {
            return;
        }
        let a: usize = len - 1 - i;
        let b: usize = len - 1 - j;
        let x = copy_entry(&self.stack[a]);
        let y = copy_entry(&self.stack[b]);
        self.stack.set(a, y);
        self.stack.set(b, x);
        assert(self@ =~= swapped(before, i as nat, j as nat));
    }

    /// Push a copy of slot `i`, counted from the top.
    pub fn apply_dup(&mut self, i: usize)
        ensures
            final(self)@ == duplicated(old(self)@, i as nat),
    {
        let ghost before = self@;
        let len: usize = self.stack.len();
        if i >= len {
            return;
        }
        let e = copy_entry(&self.stack[len - 1 - i]);
        self.stack.push(e);
        assert(self@ =~= duplicated(before, i as nat));
    }

    /// The named slots as pairs of name and value, from the bottom.
    pub fn variables_at_step(&self) -> (r: Vec<(String, i64)>)
        ensures
            named_views(r@) == named_slots(self@),
    {
        let mut out: Vec<(String, i64)> = Vec::new();
        let mut i: usize = 0;
        assert(self@.take(0) =~= Seq::empty());
        assert(named_views(out@) =~= Seq::empty());
        while i < self.stack.len()
            invariant
                i <= self.stack.len(),
                self@.len() == self.stack.len(),
                named_views(out@) == named_slots(self@.take(i as int)),
            decreases self.stack.len() - i,
        {
            proof {
                assert(self@.take(i + 1).drop_last() =~= self@.take(i as int));
                assert(self@.take(i + 1).last() == self.stack@[i as int]@);
            }
            if let Some(name) = &self.stack[i].name {
                let ghost done = named_views(out@);
                let pair: (String, i64) = (name.clone(), self.stack[i].value);
                out.push(pair);
                assert(named_views(out@) =~= done.push((pair.0@, pair.1)));
            }
            i += 1;
        }
        assert(self@.take(i as int) =~= self@);
        out
    }

    /// Give the top a name.
    pub fn name_top(&mut self, name: String)
        ensures
            final(self)@ == if old(self)@.len() > 0 {
                old(self)@.drop_last().push((old(self)@.last().0, Some(name@)))
            } else {
                old(self)@
            },
    {
        let ghost before = self@;
        if let Some(top) = self.pop() {
            self.push(top.0, Some(name));
        }
    }

    /// The number of slots.
    pub fn depth(&self) -> (n: usize)
        ensures
            n == self@.len(),
    {
        self.stack.len()
    }

    /// The value of the most recently pushed slot of a name.
    pub fn lookup(&self, name: &str) -> (r: Option<i64>)
        ensures
            r == looked_up(self@, name@),
    {
        let mut n: usize = self.stack.len();
        while n > 0
            invariant
                n <= self.stack.len(),
                self@.len() == self.stack.len(),
                text::last_below(self@.len() as int, slot_named(self@, name@))
                    == text::last_below(n as int, slot_named(self@, name@)),
            decreases n,
        {
            n -= 1;
            assert(self@[n as int] == self.stack@[n as int]@);
            if let Some(own) = &self.stack[n].name {
                if text::str_eq(own.as_str(), name) {
                    return Some(self.stack[n].value);
                }
            }
        }
        None
    }
}

impl Default for StackTracker {
    fn default() -> (r: Self)
        ensures
            r@ == Seq::<(i64, Option<Seq<char>>)>::empty(),
    {
        StackTracker::new()
    }
}

/// "The sign `c` stands at this index, outside every parenthesis and between
/// two operands that are not blank."
pub open spec fn sign_at(s: Seq<char>, c: char) -> spec_fn(int) -> bool {
    |i: int|
        {
            &&& i >= 1
            &&& s[i] == c
            &&& expr::outside(s, i)
            &&& text::trimmed(s.take(i)).len() > 0
            &&& text::trimmed(s.skip(i + 1)).len() > 0
        }
}

/// `s` split at the last sign `c`.
pub open spec fn sign_split(s: Seq<char>, c: char, op: ArithOp) -> Option<
    (Seq<char>, ArithOp, Seq<char>),
> {
    match text::last_below(s.len() as int, sign_at(s, c)) {
        Some(i) => Some((text::trimmed(s.take(i)), op, text::trimmed(s.skip(i + 1)))),
        None => None,
    }
}

/// `s` split at its last `+`, or else its last `-`, `*`, `/` or `%`.
pub open spec fn arith_split(s: Seq<char>) -> Option<(Seq<char>, ArithOp, Seq<char>)> {
    expr::or_else(
        sign_split(s, '+', ArithOp::Add),
        expr::or_else(
            sign_split(s, '-', ArithOp::Sub),
            expr::or_else(
                sign_split(s, '*', ArithOp::Mul),
                expr::or_else(
                    sign_split(s, '/', ArithOp::Div),
                    sign_split(s, '%', ArithOp::Mod),
                ),
            ),
        ),
    )
}

/// The integer of an operand: a literal, a variable, or else zero.
pub open spec fn operand_value(s: Seq<char>, known: Map<Seq<char>, i64>) -> i64 {
    let t = text::trimmed(s);
    match numeral::i64_value(t) {
        Ok(n) => n as i64,
        Err(_) => if known.dom().contains(t) {
            known[t]
        } else {
            0
        },
    }
}

/// The slot of an operand: a variable has its name.
pub open spec fn operand_slot(s: Seq<char>, known: Map<Seq<char>, i64>) -> (
    i64,
    Option<Seq<char>>,
) {
    (
        operand_value(s, known),
        if known.dom().contains(s) {
            Some(s)
        } else {
            None
        },
    )
}

/// The stack after an expression: one slot with its result. A variable gives
/// it its name, a binary operation of the operands a derived one.
pub open spec fn stack_of_expr(s: Seq<char>, known: Map<Seq<char>, i64>, result: i64) -> Seq<
    (i64, Option<Seq<char>>),
> {
    let t = text::trimmed(s);
    if numeral::i64_value(t) is Ok || t == "true"@ || t == "false"@ {
        seq![(result, None)]
    } else if known.dom().contains(t) {
        seq![(result, Some(t))]
    } else {
        match arith_split(t) {
            Some((l, op, r)) => operated(
                seq![operand_slot(l, known), operand_slot(r, known)],
                op,
                result,
            ),
            None => seq![(result, None)],
        }
    }
}

/// The view of a split.
pub open spec fn arith_view(r: Option<(&str, ArithOp, &str)>) -> Option<
    (Seq<char>, ArithOp, Seq<char>),
> {
    match r {
        Some((l, op, r)) => Some((l@, op, r@)),
        None => None,
    }
}

fn split_sign<'a>(s: &'a str, c: char, op: ArithOp) -> (r: Option<(&'a str, ArithOp, &'a str)>)
    requires
        c != '(' && c != ')',
    ensures
        arith_view(r) == sign_split(s@, c, op),
{
    let v = text::chars_of(s);
    let mut n: usize = v.len();
    let mut d: i128 = 0;
    assert(s@.skip(n as int) =~= Seq::empty());
    while n > 0
        invariant
            n <= v.len(),
            v@ == s@,
            d == crate::brackets::pair_depth(s@.skip(n as int), '(', ')'),
            -(v.len() - n) <= d <= v.len() - n,
            text::last_below(s@.len() as int, sign_at(s@, c)) == text::last_below(
                n as int,
                sign_at(s@, c),
            ),
        decreases n,
    {
        n -= 1;
        proof {
            crate::brackets::lemma_pair_skip(s@, n as int, '(', ')');
        }
        if v[n] == '(' {
            d = d + 1;
        } else if v[n] == ')' {
            d = d - 1;
        }
        if n >= 1 && v[n] == c && d == 0 {
            let left = text::trim(text::head(s, n));
            let right = text::trim(text::tail(s, n + 1));
            if left.unicode_len() > 0 && right.unicode_len() > 0 {
                return Some((left, op, right));
            }
        }
    }
    None
}

/// Split a binary expression like `a + b`.
pub fn split_binary_expr<'a>(expr: &'a str) -> (r: Option<(&'a str, ArithOp, &'a str)>)
    ensures
        arith_view(r) == arith_split(expr@),
{
    let sum = split_sign(expr, '+', ArithOp::Add);
    if sum.is_some() {
        return sum;
    }
    let difference = split_sign(expr, '-', ArithOp::Sub);
    if difference.is_some() {
        return difference;
    }
    let product = split_sign(expr, '*', ArithOp::Mul);
    if product.is_some() {
        return product;
    }
    let quotient = split_sign(expr, '/', ArithOp::Div);
    if quotient.is_some() {
        return quotient;
    }
    split_sign(expr, '%', ArithOp::Mod)
}

/// The integer of an operand.
pub fn resolve_operand(operand: &str, known: &Scope<i64>) -> (r: i64)
    ensures
        r == operand_value(operand@, known@),
{
    let t = text::trim(operand);
    if let Ok(n) = numeral::parse_i64(t) {
        return n;
    }
    match known.get(t) {
        Some(v) => *v,
        None => 0,
    }
}

fn push_operand(tracker: &mut StackTracker, operand: &str, known: &Scope<i64>)
    ensures
        final(tracker)@ == old(tracker)@.push(operand_slot(operand@, known@)),
{
    let name: Option<String> = if known.contains_key(operand) {
        Some(operand.to_owned())
    } else {
        None
    };
    tracker.push(resolve_operand(operand, known), name);
}

/// The symbolic stack of a simple expression whose result the machine gave:
/// what the result is called.
pub fn track_expr(expr: &str, known_vars: &Scope<i64>, result_value: i64) -> (r: StackTracker)
    ensures
        r@ == stack_of_expr(expr@, known_vars@, result_value),
{
    let t = text::trim(expr);
    let mut tracker = StackTracker::new();
    if numeral::parse_i64(t).is_ok() || text::str_eq(t, "true") || text::str_eq(t, "false") {
        tracker.push(result_value, None);
        assert(tracker@ =~= seq![(result_value, None)]);
        return tracker;
    }
    if known_vars.contains_key(t) {
        tracker.push(result_value, Some(t.to_owned()));
        assert(tracker@ =~= seq![(result_value, Some(t@))]);
        return tracker;
    }
    if let Some((left, op, right)) = split_binary_expr(t) {
        push_operand(&mut tracker, left, known_vars);
        push_operand(&mut tracker, right, known_vars);
        assert(tracker@ =~= seq![
            operand_slot(left@, known_vars@),
            operand_slot(right@, known_vars@),
        ]);
        tracker.apply_arithmetic(op, result_value);
        return tracker;
    }
    tracker.push(result_value, None);
    assert(tracker@ =~= seq![(result_value, None)]);
    tracker
}

/// Popping gives back what was pushed last and leaves the stack before it.
pub proof fn law_pop_undoes_push(
    s: Seq<(i64, Option<Seq<char>>)>,
    e: (i64, Option<Seq<char>>),
)
    ensures
        s.push(e).last() == e,
        s.push(e).drop_last() == s,
{
    assert(s.push(e).drop_last() =~= s);
}

/// Exchanging two slots twice restores the stack.
pub proof fn law_swap_is_an_involution(
    s: Seq<(i64, Option<Seq<char>>)>,
    i: nat,
    j: nat,
)
    ensures
        swapped(swapped(s, i, j), i, j) == s,
        swapped(s, i, j) == swapped(s, j, i),
{
    assert(swapped(swapped(s, i, j), i, j) =~= s);
    assert(swapped(s, i, j) =~= swapped(s, j, i));
}

/// A duplicated slot is on top, and the stack below is as it was.
pub proof fn law_dup_keeps_the_stack(s: Seq<(i64, Option<Seq<char>>)>, i: nat)
    requires
        i < s.len(),
    ensures
        duplicated(s, i).last() == s[s.len() - 1 - i],
        duplicated(s, i).drop_last() == s,
{
    assert(duplicated(s, i).drop_last() =~= s);
}

/// A lookup finds the slot of the name that was pushed last: a push under the
/// name shadows the others, and a push under another name hides nothing.
pub proof fn law_lookup_finds_the_latest(
    s: Seq<(i64, Option<Seq<char>>)>,
    e: (i64, Option<Seq<char>>),
    name: Seq<char>,
)
    ensures
        e.1 == Some(name) ==> looked_up(s.push(e), name) == Some(e.0),
        e.1 != Some(name) ==> looked_up(s.push(e), name) == looked_up(s, name),
{
    let t = s.push(e);
    if e.1 != Some(name) {
        lemma_last_named(s, e, name, s.len() as int);
        text::lemma_last_below(s.len() as int, slot_named(s, name));
    }
}

proof fn lemma_last_named(
    s: Seq<(i64, Option<Seq<char>>)>,
    e: (i64, Option<Seq<char>>),
    name: Seq<char>,
    n: int,
)
    requires
        0 <= n <= s.len(),
    ensures
        text::last_below(n, slot_named(s.push(e), name)) == text::last_below(
            n,
            slot_named(s, name),
        ),
    decreases n,
{
    if n > 0 {
        lemma_last_named(s, e, name, n - 1);
    }
}

} // verus!
