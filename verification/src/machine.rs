//! The stack discipline of the instructions that expressions compile to, and
//! the correctness of the compiler against it.
//!
//! Nothing here runs: the machine of this module is a mathematical one, against
//! which the emitted code is proved to compute the value of the expression.

use vstd::prelude::*;

use crate::expr::{BinOp, Expr, UnOp};
use crate::numeral;
use crate::text;
use crate::tvm;
use crate::tvm::TvmFault;

verus! {

/// Two to the power 256.
pub open spec fn word_limit() -> int {
    0x1_0000_0000_0000_0000_0000_0000_0000_0000_0000_0000_0000_0000_0000_0000_0000_0000int
}

/// `n` if it fits into a 257-bit signed integer.
pub open spec fn ranged(n: int) -> Option<int> {
    if -word_limit() <= n < word_limit() {
        Some(n)
    } else {
        None
    }
}

/// `a / b` rounded down.
pub open spec fn floor_div(a: int, b: int) -> int {
    if b > 0 {
        a / b
    } else {
        (-a) / (-b)
    }
}

/// `2^n`.
pub open spec fn power_of_two(n: nat) -> int
    decreases n,
{
    if n == 0 {
        1
    } else {
        2 * power_of_two((n - 1) as nat)
    }
}

/// A bitwise operation on two's complement integers without a width: `f` gives
/// the result of each pair of bits.
pub open spec fn bitwise(a: int, b: int, f: spec_fn(int, int) -> int) -> int
    decreases tvm::magnitude(a) + tvm::magnitude(b),
{
    if (a == 0 || a == -1) && (b == 0 || b == -1) {
        -f(-a, -b)
    } else {
        2 * bitwise(a / 2, b / 2, f) + f(a % 2, b % 2)
    }
}

/// What the machine leaves of the two operands of an instruction; `None` where
/// it raises an exception. A comparison leaves `-1` for true.
pub open spec fn applied(op: BinOp, a: int, b: int) -> Option<int> {
    match op {
        BinOp::Add => ranged(a + b),
        BinOp::Sub => ranged(a - b),
        BinOp::Mul => ranged(a * b),
        BinOp::Div => if b == 0 {
            None
        } else {
            ranged(floor_div(a, b))
        },
        BinOp::Mod => if b == 0 {
            None
        } else {
            ranged(a - b * floor_div(a, b))
        },
        BinOp::BitAnd => ranged(
            bitwise(
                a,
                b,
                |x: int, y: int|
                    if x == 1 && y == 1 {
                        1int
                    } else {
                        0int
                    },
            ),
        ),
        BinOp::BitOr => ranged(
            bitwise(
                a,
                b,
                |x: int, y: int|
                    if x == 1 || y == 1 {
                        1int
                    } else {
                        0int
                    },
            ),
        ),
        BinOp::BitXor => ranged(
            bitwise(
                a,
                b,
                |x: int, y: int|
                    if x != y {
                        1int
                    } else {
                        0int
                    },
            ),
        ),
        BinOp::Shl => if 0 <= b <= 1023 {
            ranged(a * power_of_two(b as nat))
        } else {
            None
        },
        BinOp::Shr => if 0 <= b <= 1023 {
            ranged(a / power_of_two(b as nat))
        } else {
            None
        },
        BinOp::Eq => Some(truth(a == b)),
        BinOp::Neq => Some(truth(a != b)),
        BinOp::Lt => Some(truth(a < b)),
        BinOp::Gt => Some(truth(a > b)),
        BinOp::Leq => Some(truth(a <= b)),
        BinOp::Geq => Some(truth(a >= b)),
    }
}

/// The machine's truth values.
pub open spec fn truth(b: bool) -> int {
    if b {
        -1
    } else {
        0
    }
}

/// The operator compares.
pub open spec fn is_comparison(op: BinOp) -> bool {
    match op {
        BinOp::Eq | BinOp::Neq | BinOp::Lt | BinOp::Gt | BinOp::Leq | BinOp::Geq => true,
        _ => false,
    }
}

/// The value of a binary operation: as the instruction computes it, but `1`
/// for a comparison that holds.
pub open spec fn binary_value(op: BinOp, a: int, b: int) -> Option<int> {
    match applied(op, a, b) {
        Some(n) => if is_comparison(op) {
            Some(-n)
        } else {
            Some(n)
        },
        None => None,
    }
}

/// The value of a unary operation.
pub open spec fn unary_value(op: UnOp, a: int) -> Option<int> {
    match op {
        UnOp::Neg => ranged(-a),
        UnOp::Not => ranged(-a - 1),
    }
}

/// The value of an expression; `None` where a step leaves the range of the
/// machine, divides by zero or shifts too far.
pub open spec fn value(e: Expr) -> Option<int>
    decreases e,
{
    match e {
        Expr::Literal(n) => Some(n as int),
        Expr::UnOp { sign, operand } => match value(*operand) {
            Some(a) => unary_value(sign, a),
            None => None,
        },
        Expr::BinOp { op, left, right } => match (value(*left), value(*right)) {
            (Some(a), Some(b)) => binary_value(op, a, b),
            _ => None,
        },
    }
}

/// The binary instruction at the head of the code, with its length in bytes.
pub open spec fn decoded(code: Seq<u8>) -> Option<(BinOp, int)> {
    let b = code[0];
    if b == 0xa0 {
        Some((BinOp::Add, 1))
    } else if b == 0xa1 {
        Some((BinOp::Sub, 1))
    } else if b == 0xa8 {
        Some((BinOp::Mul, 1))
    } else if b == 0xa9 && code.len() > 1 && code[1] == 0x04 {
        Some((BinOp::Div, 2))
    } else if b == 0xa9 && code.len() > 1 && code[1] == 0x08 {
        Some((BinOp::Mod, 2))
    } else if b == 0xb0 {
        Some((BinOp::BitAnd, 1))
    } else if b == 0xb1 {
        Some((BinOp::BitOr, 1))
    } else if b == 0xb2 {
        Some((BinOp::BitXor, 1))
    } else if b == 0xac {
        Some((BinOp::Shl, 1))
    } else if b == 0xad {
        Some((BinOp::Shr, 1))
    } else if b == 0xb9 {
        Some((BinOp::Lt, 1))
    } else if b == 0xba {
        Some((BinOp::Eq, 1))
    } else if b == 0xbb {
        Some((BinOp::Leq, 1))
    } else if b == 0xbc {
        Some((BinOp::Gt, 1))
    } else if b == 0xbd {
        Some((BinOp::Neq, 1))
    } else if b == 0xbe {
        Some((BinOp::Geq, 1))
    } else {
        None
    }
}

/// The stack after the code has run on a stack, its top being the last
/// element; `None` if an instruction raised an exception or is not known.
pub open spec fn run(code: Seq<u8>, stack: Seq<int>) -> Option<Seq<int>>
    decreases code.len(),
{
    if code.len() == 0 {
        Some(stack)
    } else {
        let b = code[0] as int;
        if 0x70 <= b <= 0x7f {
            let x = b - 0x70;
            run(
                code.skip(1),
                stack.push(
                    if x <= 10 {
                        x
                    } else {
                        x - 16
                    },
                ),
            )
        } else if b == 0x80 && code.len() >= 2 {
            let x = code[1] as int;
            run(
                code.skip(2),
                stack.push(
                    if x < 128 {
                        x
                    } else {
                        x - 256
                    },
                ),
            )
        } else if b == 0x81 && code.len() >= 3 {
            let x = code[1] as int * 256 + code[2] as int;
            run(
                code.skip(3),
                stack.push(
                    if x < 32768 {
                        x
                    } else {
                        x - 65536
                    },
                ),
            )
        } else if (b == 0xa3 || b == 0xb3) && stack.len() >= 1 {
            let op = if b == 0xa3 {
                UnOp::Neg
            } else {
                UnOp::Not
            };
            match unary_value(op, stack.last()) {
                Some(n) => run(code.skip(1), stack.drop_last().push(n)),
                None => None,
            }
        } else {
            match decoded(code) {
                Some((op, width)) => if stack.len() >= 2 && 0 < width <= code.len() {
                    let a = stack[stack.len() - 2];
                    let c = stack[stack.len() - 1];
                    match applied(op, a, c) {
                        Some(n) => run(code.skip(width), stack.take(stack.len() - 2).push(n)),
                        None => None,
                    }
                } else {
                    None
                },
                None => None,
            }
        }
    }
}

/// One binary instruction on two operands.
proof fn lemma_run_applied(head: Seq<u8>, op: BinOp, rest: Seq<u8>, stack: Seq<int>, a: int, b: int)
    requires
        head.len() > 0,
        decoded(head) == Some((op, head.len() as int)),
        head[0] == 0xa9 ==> head.len() == 2,
        head[0] != 0xa9 ==> head.len() == 1,
    ensures
        run(head + rest, stack.push(a).push(b)) == match applied(op, a, b) {
            Some(n) => run(rest, stack.push(n)),
            None => None,
        },
{
    let code = head + rest;
    let st = stack.push(a).push(b);
    assert(code[0] == head[0]);
    if head.len() == 2 {
        assert(code[1] == head[1]);
    }
    assert(decoded(code) == decoded(head));
    assert(code.skip(head.len() as int) =~= rest);
    assert(st.take(st.len() - 2) =~= stack);
}

/// `NEGATE` on a truth value.
proof fn lemma_run_negate(rest: Seq<u8>, stack: Seq<int>, n: int)
    requires
        n == 0 || n == -1,
    ensures
        run(seq![0xa3u8] + rest, stack.push(n)) == run(rest, stack.push(-n)),
{
    let code = seq![0xa3u8] + rest;
    assert(code.skip(1) =~= rest);
    assert(stack.push(n).drop_last() =~= stack);
}

/// The instructions of an operator compute its value.
proof fn lemma_run_op(op: BinOp, rest: Seq<u8>, stack: Seq<int>, a: int, b: int)
    ensures
        run(tvm::op_code(op) + rest, stack.push(a).push(b)) == match binary_value(op, a, b) {
            Some(n) => run(rest, stack.push(n)),
            None => None,
        },
{
    let code = tvm::op_code(op);
    if is_comparison(op) {
        let head = seq![code[0]];
        assert(code + rest =~= head + (seq![0xa3u8] + rest));
        lemma_run_applied(head, op, seq![0xa3u8] + rest, stack, a, b);
        lemma_run_negate(rest, stack, applied(op, a, b)->0);
    } else {
        lemma_run_applied(code, op, rest, stack, a, b);
    }
}

/// The instructions of a unary operator compute its value.
proof fn lemma_run_sign(op: UnOp, rest: Seq<u8>, stack: Seq<int>, a: int)
    ensures
        run(tvm::sign_code(op) + rest, stack.push(a)) == match unary_value(op, a) {
            Some(n) => run(rest, stack.push(n)),
            None => None,
        },
{
    let code = tvm::sign_code(op) + rest;
    assert(code.skip(1) =~= rest);
    assert(stack.push(a).drop_last() =~= stack);
}

/// The immediate forms of `PUSHINT`.
proof fn lemma_push_immediate(n: int, rest: Seq<u8>, stack: Seq<int>)
    requires
        -32768 <= n <= 32767,
    ensures
        run(tvm::push_code(n) + rest, stack) == run(rest, stack.push(n)),
{
    let code = tvm::push_code(n) + rest;
    if -5 <= n <= 10 {
        assert(tvm::push_code(n) =~= seq![(0x70 + n % 16) as u8]);
        assert(code[0] == 0x70 + n % 16);
        assert(code.skip(1) =~= rest);
        if n >= 0 {
            assert(n % 16 == n);
        } else {
            assert(n % 16 == n + 16);
        }
    } else if -128 <= n <= 127 {
        assert(tvm::push_code(n) =~= seq![0x80u8, (n % 256) as u8]);
        assert(code[0] == 0x80 && code[1] == n % 256);
        assert(code.skip(2) =~= rest);
        if n >= 0 {
            assert(n % 256 == n);
        } else {
            assert(n % 256 == n + 256);
        }
    } else {
        assert(tvm::push_code(n) =~= seq![0x81u8, ((n / 256) % 256) as u8, (n % 256) as u8]);
        assert(code[0] == 0x81 && code[1] == (n / 256) % 256 && code[2] == n % 256);
        assert(code.skip(3) =~= rest);
        if n >= 0 {
            assert((n / 256) % 256 == n / 256);
        } else {
            assert((n / 256) % 256 == n / 256 + 256);
        }
    }
}

/// `PUSHINT` of any `i64` pushes exactly that integer.
pub proof fn law_push_int_pushes(n: int, rest: Seq<u8>, stack: Seq<int>)
    requires
        i64::MIN <= n <= i64::MAX,
    ensures
        run(tvm::push_code(n) + rest, stack) == run(rest, stack.push(n)),
    decreases tvm::magnitude(n), 1int,
{
    if -32768 <= n <= 32767 {
        lemma_push_immediate(n, rest, stack);
    } else {
        lemma_push_product(n, rest, stack);
    }
}

/// The forms of `PUSHINT` beyond sixteen bits.
proof fn lemma_push_product(n: int, rest: Seq<u8>, stack: Seq<int>)
    requires
        i64::MIN <= n <= i64::MAX,
        !(-32768 <= n <= 32767),
    ensures
        run(tvm::push_code(n) + rest, stack) == run(rest, stack.push(n)),
    decreases tvm::magnitude(n), 0int,
{
    let q = tvm::quotient127(n);
    let r = n - 127 * q;
    let mul = seq![0xa8u8];
    let plus = seq![0xa0u8];
    let by = tvm::push_code(127);
    let tail = if r == 0 {
        rest
    } else {
        tvm::push_code(r) + (plus + rest)
    };
    assert(tvm::push_code(n) + rest =~= tvm::push_code(q) + (by + (mul + tail))) by {
        assert(tvm::push_code(n) =~= if r == 0 {
            tvm::push_code(q) + by + mul
        } else {
            tvm::push_code(q) + by + mul + tvm::push_code(r) + plus
        });
    }
    law_push_int_pushes(q, by + (mul + tail), stack);
    lemma_push_immediate(127, mul + tail, stack.push(q));
    lemma_run_applied(mul, BinOp::Mul, tail, stack, q, 127);
    assert(run(mul + tail, stack.push(q).push(127)) == run(tail, stack.push(q * 127)));
    if r != 0 {
        lemma_push_immediate(r, plus + rest, stack.push(q * 127));
        lemma_run_applied(plus, BinOp::Add, rest, stack, q * 127, r);
    }
}

/// The code of an expression computes its value: it leaves the value on top of
/// an otherwise unchanged stack, and raises an exception if there is none.
pub proof fn law_compiled_code_computes_value(e: Expr, rest: Seq<u8>, stack: Seq<int>)
    ensures
        run(tvm::code_of(e) + rest, stack) == match value(e) {
            Some(n) => run(rest, stack.push(n)),
            None => None,
        },
    decreases e,
{
    match e {
        Expr::Literal(n) => {
            law_push_int_pushes(n as int, rest, stack);
        },
        Expr::UnOp { sign, operand } => {
            let tail = tvm::sign_code(sign) + rest;
            assert(tvm::code_of(e) + rest =~= tvm::code_of(*operand) + tail);
            law_compiled_code_computes_value(*operand, tail, stack);
            if let Some(a) = value(*operand) {
                lemma_run_sign(sign, rest, stack, a);
            }
        },
        Expr::BinOp { op, left, right } => {
            let tail = tvm::op_code(op) + rest;
            assert(tvm::code_of(e) + rest =~= tvm::code_of(*left) + (tvm::code_of(*right) + tail));
            law_compiled_code_computes_value(*left, tvm::code_of(*right) + tail, stack);
            if let Some(a) = value(*left) {
                law_compiled_code_computes_value(*right, tail, stack.push(a));
                if let Some(b) = value(*right) {
                    lemma_run_op(op, rest, stack, a, b);
                }
            }
        },
    }
}

/// The virtual machine ends on the code as the machine of this module does:
/// normally with the same integer on top of the stack, or by an exception.
pub open spec fn runs_alike(code: Seq<u8>) -> bool {
    let (raw, top, _) = tvm::vm_run(code, tvm::GAS_LIMIT);
    match run(code, Seq::empty()) {
        Some(stack) => raw == -1 && top == Some(numeral::int_text(stack.last())),
        None => raw != -1,
    }
}

/// An expression evaluates to its value where the virtual machine runs its code
/// as the machine of this module does: to the value if that is an `i64`, and
/// otherwise to an error, which tells a value that is too large from a step
/// that raised an exception.
pub proof fn law_expression_has_its_value(e: Expr)
    ensures
        tvm::code_of(e).len() <= tvm::CELL_BYTES && runs_alike(tvm::code_of(e)) ==> match value(e) {
            Some(n) => if i64::MIN <= n <= i64::MAX {
                tvm::expr_value(e) == Ok::<int, TvmFault>(n)
            } else {
                tvm::expr_value(e) is Err && tvm::expr_value(e)->Err_0 is NotAnInteger
            },
            None => tvm::expr_value(e) is Err && tvm::expr_value(e)->Err_0 is Failed,
        },
{
    let code = tvm::code_of(e);
    law_compiled_code_computes_value(e, Seq::empty(), Seq::empty());
    assert(code + Seq::<u8>::empty() =~= code);
    if let Some(n) = value(e) {
        assert(run(code, Seq::empty()) == Some(Seq::<int>::empty().push(n)));
        if i64::MIN <= n <= i64::MAX {
            tvm::law_shown_integer_is_read_back(
                n as i64,
                tvm::vm_run(code, tvm::GAS_LIMIT).2,
            );
        } else {
            numeral::law_decimal_beyond_range(n, i64::MIN as int, i64::MAX as int);
            numeral::lemma_int_text_ends(n);
            text::lemma_trimmed_already(numeral::int_text(n));
        }
    }
}

/// The greatest magnitude that `steps` multiplications by 127 push.
spec fn reach(steps: nat) -> int
    decreases steps,
{
    if steps == 0 {
        32767
    } else {
        127 * reach((steps - 1) as nat) + 126
    }
}

proof fn lemma_push_len(n: int, steps: nat)
    requires
        -reach(steps) <= n <= reach(steps),
    ensures
        tvm::push_code(n).len() <= 3 + 6 * steps,
    decreases steps,
{
    if !(-32768 <= n <= 32767) {
        let less = (steps - 1) as nat;
        let q = tvm::quotient127(n);
        let r = n - 127 * q;
        assert(-reach(less) <= q <= reach(less));
        lemma_push_len(q, less);
        assert(tvm::push_code(127).len() == 2);
        assert(-127 < r < 127);
        assert(tvm::push_code(r).len() <= 2);
    }
}

/// The code that pushes an `i64` takes up less than half of a cell.
pub proof fn lemma_push_fits(n: int)
    requires
        i64::MIN <= n <= i64::MAX,
    ensures
        tvm::push_code(n).len() <= 45,
{
    reveal_with_fuel(reach, 8);
    lemma_push_len(n, 7);
}

} // verus!
