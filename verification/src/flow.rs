//! Laws of statements, blocks and loops: what a run leaves and how it ends, in
//! terms of the runs of the parts.

use vstd::prelude::*;

use crate::ast::{Arm, GateMode, Stmt};
use crate::ops::{EventKind, Op, State};
use crate::rewrite::Env;
use crate::semantics;
use crate::semantics::{Flow, Program};
use crate::text;
use crate::value::Val;

verus! {

/// The most rounds of a loop.
pub const ROUNDS: u32 = 10_000;

/// The state with one operation recorded behind the others.
pub open spec fn recorded(st: State, op: Op) -> State {
    State { ops: st.ops.push(op), ..st }
}

/// A condition with this value holds: it is an integer or an amount of coins
/// other than zero.
pub open spec fn is_true(v: Option<Val>) -> bool {
    match v {
        Some(Val::Int(n)) => n != 0,
        Some(Val::Coin(n)) => n != 0,
        _ => false,
    }
}

proof fn lemma_block_from(
    p: Program,
    depth: nat,
    st: State,
    env: Env,
    path: Seq<char>,
    a: Seq<Stmt>,
    b: Seq<Stmt>,
    i: int,
)
    requires
        0 <= i <= b.len(),
    ensures
        semantics::exec_block(p, depth, st, env, path, a + b, a.len() + i)
            == semantics::exec_block(p, depth, st, env, path, b, i),
    decreases b.len() - i,
{
    if i < b.len() {
        assert((a + b)[a.len() + i] == b[i]);
        if let Some((st1, env1, Flow::Fallthrough)) = semantics::exec_stmt(
            p,
            depth,
            st,
            env,
            path,
            b[i],
        ) {
            lemma_block_from(p, depth, st1, env1, path, a, b, i + 1);
        }
    }
}

proof fn lemma_block_to(
    p: Program,
    depth: nat,
    st: State,
    env: Env,
    path: Seq<char>,
    a: Seq<Stmt>,
    b: Seq<Stmt>,
    i: int,
)
    requires
        0 <= i <= a.len(),
    ensures
        semantics::exec_block(p, depth, st, env, path, a + b, i) == match semantics::exec_block(
            p,
            depth,
            st,
            env,
            path,
            a,
            i,
        ) {
            Some((st1, env1, Flow::Fallthrough)) => semantics::exec_block(
                p,
                depth,
                st1,
                env1,
                path,
                b,
                0,
            ),
            other => other,
        },
    decreases a.len() - i,
{
    if i < a.len() {
        assert((a + b)[i] == a[i]);
        if let Some((st1, env1, Flow::Fallthrough)) = semantics::exec_stmt(
            p,
            depth,
            st,
            env,
            path,
            a[i],
        ) {
            lemma_block_to(p, depth, st1, env1, path, a, b, i + 1);
        }
    } else {
        lemma_block_from(p, depth, st, env, path, a, b, 0);
    }
}

/// A block runs its statements in order: what comes behind a beginning runs
/// where the beginning has ended, and does not run at all if the beginning
/// returned or aborted. A block of one statement is that statement, and an
/// empty block does nothing.
pub proof fn law_block_runs_in_order(
    p: Program,
    depth: nat,
    st: State,
    env: Env,
    path: Seq<char>,
    a: Seq<Stmt>,
    b: Seq<Stmt>,
    s: Stmt,
)
    ensures
        semantics::exec_block(p, depth, st, env, path, a + b, 0) == match semantics::exec_block(
            p,
            depth,
            st,
            env,
            path,
            a,
            0,
        ) {
            Some((st1, env1, Flow::Fallthrough)) => semantics::exec_block(
                p,
                depth,
                st1,
                env1,
                path,
                b,
                0,
            ),
            other => other,
        },
        semantics::exec_block(p, depth, st, env, path, seq![s], 0) == semantics::exec_stmt(
            p,
            depth,
            st,
            env,
            path,
            s,
        ),
        semantics::exec_block(p, depth, st, env, path, Seq::empty(), 0) == Some(
            (st, env, Flow::Fallthrough),
        ),
{
    lemma_block_to(p, depth, st, env, path, a, b, 0);
    reveal_with_fuel(semantics::exec_block, 2);
}

/// Nothing is recorded behind a statement that ends its block: if the statement
/// behind a beginning that falls through returns or aborts, so does the block,
/// in the state and with the variables that the statement left.
pub proof fn law_end_of_a_statement_ends_the_block(
    p: Program,
    depth: nat,
    st: State,
    env: Env,
    path: Seq<char>,
    a: Seq<Stmt>,
    s: Stmt,
    b: Seq<Stmt>,
    mid: State,
    inner: Env,
    end: State,
    left: Env,
    flow: Flow,
)
    requires
        semantics::exec_block(p, depth, st, env, path, a, 0) == Some(
            (mid, inner, Flow::Fallthrough),
        ),
        semantics::exec_stmt(p, depth, mid, inner, path, s) == Some((end, left, flow)),
        flow != Flow::Fallthrough,
    ensures
        semantics::exec_block(p, depth, st, env, path, a + seq![s] + b, 0) == Some(
            (end, left, flow),
        ),
{
    law_block_runs_in_order(p, depth, st, env, path, a + seq![s], b, s);
    law_block_runs_in_order(p, depth, st, env, path, a, seq![s], s);
    law_block_runs_in_order(p, depth, mid, inner, path, seq![s], b, s);
}

/// The block of a statement runs one level deeper.
proof fn lemma_nested(
    p: Program,
    depth: nat,
    st: State,
    env: Env,
    path: Seq<char>,
    body: Seq<Stmt>,
)
    requires
        depth > 0,
    ensures
        semantics::nested_block(p, depth, st, env, path, body) == semantics::exec_block(
            p,
            (depth - 1) as nat,
            st,
            env,
            path,
            body,
            0,
        ),
{
}

/// One round of a `while` loop: the condition holds, and the body then falls
/// through.
pub open spec fn while_round(
    p: Program,
    depth: nat,
    path: Seq<char>,
    cond: Seq<char>,
    body: Seq<Stmt>,
    from: (State, Env),
    to: (State, Env),
) -> bool {
    match semantics::eval_value(p, depth, from.0, from.1, cond) {
        Some((st, env, v)) => is_true(v) && semantics::exec_block(
            p,
            (depth - 1) as nat,
            st,
            env,
            path,
            body,
            0,
        ) == Some((to.0, to.1, Flow::Fallthrough)),
        None => false,
    }
}

/// The rounds of a `while` loop, from each stop to the next.
pub open spec fn while_rounds(
    p: Program,
    depth: nat,
    path: Seq<char>,
    cond: Seq<char>,
    body: Seq<Stmt>,
    stops: Seq<(State, Env)>,
) -> bool
    decreases stops.len(),
{
    stops.len() > 1 ==> while_round(p, depth, path, cond, body, stops[0], stops[1]) && while_rounds(
        p,
        depth,
        path,
        cond,
        body,
        stops.skip(1),
    )
}

proof fn lemma_while_round(
    p: Program,
    depth: nat,
    path: Seq<char>,
    cond: Seq<char>,
    body: Seq<Stmt>,
    from: (State, Env),
    to: (State, Env),
    n: nat,
)
    requires
        depth > 0,
        n > 0,
        while_round(p, depth, path, cond, body, from, to),
    ensures
        semantics::while_loop(p, depth, from.0, from.1, path, cond, body, n)
            == semantics::while_loop(p, depth, to.0, to.1, path, cond, body, (n - 1) as nat),
{
    if let Some((st, env, _)) = semantics::eval_value(p, depth, from.0, from.1, cond) {
        lemma_nested(p, depth, st, env, path, body);
    }
}

proof fn lemma_while(
    p: Program,
    depth: nat,
    path: Seq<char>,
    cond: Seq<char>,
    body: Seq<Stmt>,
    stops: Seq<(State, Env)>,
    n: nat,
)
    requires
        depth > 0,
        0 < stops.len() <= n + 1,
        while_rounds(p, depth, path, cond, body, stops),
    ensures
        semantics::while_loop(p, depth, stops[0].0, stops[0].1, path, cond, body, n)
            == semantics::while_loop(
            p,
            depth,
            stops.last().0,
            stops.last().1,
            path,
            cond,
            body,
            (n - stops.len() + 1) as nat,
        ),
    decreases stops.len(),
{
    if stops.len() > 1 {
        let rest = stops.skip(1);
        lemma_while_round(p, depth, path, cond, body, stops[0], stops[1], n);
        lemma_while(p, depth, path, cond, body, rest, (n - 1) as nat);
        assert(rest[0] == stops[1]);
        assert(rest.last() == stops.last());
    }
}

/// The end of a `while` loop at a stop with `n` rounds left.
proof fn lemma_while_end(
    p: Program,
    depth: nat,
    path: Seq<char>,
    cond: Seq<char>,
    body: Seq<Stmt>,
    last: State,
    vars: Env,
    n: nat,
)
    requires
        depth > 0,
    ensures
        ({
            let out = semantics::while_loop(p, depth, last, vars, path, cond, body, n);
            if n == 0 {
                out == Some((last, vars, Flow::Fallthrough))
            } else {
                match semantics::eval_value(p, depth, last, vars, cond) {
                    None => out is None,
                    Some((st1, env1, v)) => {
                        let round = semantics::exec_block(
                            p,
                            (depth - 1) as nat,
                            st1,
                            env1,
                            path,
                            body,
                            0,
                        );
                        &&& !is_true(v) ==> out == Some((st1, env1, Flow::Fallthrough))
                        &&& is_true(v) && round is None ==> out is None
                        &&& is_true(v) && round is Some && (round->0).2 != Flow::Fallthrough ==> out
                            == round
                    },
                }
            }
        }),
{
    if let Some((st, env, _)) = semantics::eval_value(p, depth, last, vars, cond) {
        lemma_nested(p, depth, st, env, path, body);
    }
}

/// A `while` loop goes on as long as its condition holds and its body falls
/// through, and then
///
/// - ends where the condition was evaluated, if it does not hold;
/// - ends where the body ended, if that returned or aborted, and returns or
///   aborts with it;
/// - ends after the greatest number of rounds.
pub proof fn law_while_loop(
    p: Program,
    depth: nat,
    st: State,
    env: Env,
    path: Seq<char>,
    cond: Seq<char>,
    body: Seq<Stmt>,
    line: u32,
    stops: Seq<(State, Env)>,
)
    requires
        depth > 0,
        0 < stops.len() <= ROUNDS + 1,
        stops[0] == (recorded(st, Op::Step { path, line }), env),
        while_rounds(p, depth, path, cond, body, stops),
    ensures
        ({
            let out = semantics::exec_stmt(
                p,
                depth,
                st,
                env,
                path,
                Stmt::While { cond, body, line },
            );
            let (last, vars) = stops.last();
            if stops.len() == ROUNDS + 1 {
                out == Some((last, vars, Flow::Fallthrough))
            } else {
                match semantics::eval_value(p, depth, last, vars, cond) {
                    None => out is None,
                    Some((st1, env1, v)) => {
                        let round = semantics::exec_block(
                            p,
                            (depth - 1) as nat,
                            st1,
                            env1,
                            path,
                            body,
                            0,
                        );
                        &&& !is_true(v) ==> out == Some((st1, env1, Flow::Fallthrough))
                        &&& is_true(v) && round is None ==> out is None
                        &&& is_true(v) && round is Some && (round->0).2 != Flow::Fallthrough ==> out
                            == round
                    },
                }
            }
        }),
{
    lemma_while(p, depth, path, cond, body, stops, ROUNDS as nat);
    lemma_while_end(
        p,
        depth,
        path,
        cond,
        body,
        stops.last().0,
        stops.last().1,
        (ROUNDS - stops.len() + 1) as nat,
    );
}

/// The rounds of a `repeat` loop, from each stop to the next: the body falls
/// through.
pub open spec fn repeat_rounds(
    p: Program,
    depth: nat,
    path: Seq<char>,
    body: Seq<Stmt>,
    stops: Seq<(State, Env)>,
) -> bool
    decreases stops.len(),
{
    stops.len() > 1 ==> semantics::exec_block(
        p,
        (depth - 1) as nat,
        stops[0].0,
        stops[0].1,
        path,
        body,
        0,
    ) == Some((stops[1].0, stops[1].1, Flow::Fallthrough)) && repeat_rounds(
        p,
        depth,
        path,
        body,
        stops.skip(1),
    )
}

/// How often a `repeat` of a value runs: as often as the value says, not at all
/// if that is negative or no integer, and never more than the greatest number
/// of rounds.
pub open spec fn times(v: Option<Val>) -> int {
    let n = match v {
        Some(Val::Int(n)) => n as int,
        Some(Val::Coin(n)) => n as int,
        _ => 0,
    };
    if n < 0 {
        0
    } else if n > ROUNDS {
        ROUNDS as int
    } else {
        n
    }
}

proof fn lemma_repeat(
    p: Program,
    depth: nat,
    path: Seq<char>,
    body: Seq<Stmt>,
    stops: Seq<(State, Env)>,
    n: nat,
)
    requires
        depth > 0,
        0 < stops.len() <= n + 1,
        repeat_rounds(p, depth, path, body, stops),
    ensures
        semantics::repeat_loop(p, depth, stops[0].0, stops[0].1, path, body, n)
            == semantics::repeat_loop(
            p,
            depth,
            stops.last().0,
            stops.last().1,
            path,
            body,
            (n - stops.len() + 1) as nat,
        ),
    decreases stops.len(),
{
    if stops.len() > 1 {
        let rest = stops.skip(1);
        let (st, env) = stops[0];
        assert(semantics::nested_block(p, depth, st, env, path, body) == Some(
            (stops[1].0, stops[1].1, Flow::Fallthrough),
        ));
        lemma_repeat(p, depth, path, body, rest, (n - 1) as nat);
        assert(rest[0] == stops[1]);
        assert(rest.last() == stops.last());
    }
}

/// The end of a `repeat` loop at a stop with `n` rounds left.
proof fn lemma_repeat_end(
    p: Program,
    depth: nat,
    path: Seq<char>,
    body: Seq<Stmt>,
    last: State,
    left: Env,
    n: nat,
)
    requires
        depth > 0,
    ensures
        ({
            let out = semantics::repeat_loop(p, depth, last, left, path, body, n);
            let round = semantics::exec_block(p, (depth - 1) as nat, last, left, path, body, 0);
            if n == 0 {
                out == Some((last, left, Flow::Fallthrough))
            } else {
                round is None || (round->0).2 != Flow::Fallthrough ==> out == round
            }
        }),
{
    lemma_nested(p, depth, last, left, path, body);
}

/// A `repeat` loop runs its body as often as its count says, and ends early
/// only where the body returns or aborts: it then returns or aborts with it.
pub proof fn law_repeat_loop(
    p: Program,
    depth: nat,
    st: State,
    env: Env,
    path: Seq<char>,
    count_expr: Seq<char>,
    body: Seq<Stmt>,
    line: u32,
    counted: State,
    vars: Env,
    v: Option<Val>,
    stops: Seq<(State, Env)>,
)
    requires
        depth > 0,
        semantics::eval_value(
            p,
            depth,
            recorded(st, Op::Step { path, line }),
            env,
            count_expr,
        ) == Some((counted, vars, v)),
        0 < stops.len() <= times(v) + 1,
        stops[0] == (counted, vars),
        repeat_rounds(p, depth, path, body, stops),
    ensures
        ({
            let out = semantics::exec_stmt(
                p,
                depth,
                st,
                env,
                path,
                Stmt::Repeat { count_expr, body, line },
            );
            let (last, left) = stops.last();
            let round = semantics::exec_block(p, (depth - 1) as nat, last, left, path, body, 0);
            if stops.len() == times(v) + 1 {
                out == Some((last, left, Flow::Fallthrough))
            } else {
                round is None || (round->0).2 != Flow::Fallthrough ==> out == round
            }
        }),
{
    assert(semantics::repeat_count(v) == times(v));
    lemma_repeat(p, depth, path, body, stops, times(v) as nat);
    lemma_repeat_end(
        p,
        depth,
        path,
        body,
        stops.last().0,
        stops.last().1,
        (times(v) - stops.len() + 1) as nat,
    );
}

/// One round of a `do` loop: the body falls through, and then the condition
/// does not hold.
pub open spec fn until_round(
    p: Program,
    depth: nat,
    path: Seq<char>,
    cond: Seq<char>,
    body: Seq<Stmt>,
    from: (State, Env),
    to: (State, Env),
) -> bool {
    match semantics::exec_block(p, (depth - 1) as nat, from.0, from.1, path, body, 0) {
        Some((st, env, Flow::Fallthrough)) => match semantics::eval_value(
            p,
            depth,
            st,
            env,
            cond,
        ) {
            Some((st1, env1, v)) => !is_true(v) && to == (st1, env1),
            None => false,
        },
        _ => false,
    }
}

/// The rounds of a `do` loop, from each stop to the next.
pub open spec fn until_rounds(
    p: Program,
    depth: nat,
    path: Seq<char>,
    cond: Seq<char>,
    body: Seq<Stmt>,
    stops: Seq<(State, Env)>,
) -> bool
    decreases stops.len(),
{
    stops.len() > 1 ==> until_round(p, depth, path, cond, body, stops[0], stops[1]) && until_rounds(
        p,
        depth,
        path,
        cond,
        body,
        stops.skip(1),
    )
}

proof fn lemma_until_round(
    p: Program,
    depth: nat,
    path: Seq<char>,
    cond: Seq<char>,
    body: Seq<Stmt>,
    from: (State, Env),
    to: (State, Env),
    n: nat,
)
    requires
        depth > 0,
        n > 0,
        until_round(p, depth, path, cond, body, from, to),
    ensures
        semantics::until_loop(p, depth, from.0, from.1, path, cond, body, n)
            == semantics::until_loop(p, depth, to.0, to.1, path, cond, body, (n - 1) as nat),
{
    lemma_nested(p, depth, from.0, from.1, path, body);
}

proof fn lemma_until(
    p: Program,
    depth: nat,
    path: Seq<char>,
    cond: Seq<char>,
    body: Seq<Stmt>,
    stops: Seq<(State, Env)>,
    n: nat,
)
    requires
        depth > 0,
        0 < stops.len() <= n + 1,
        until_rounds(p, depth, path, cond, body, stops),
    ensures
        semantics::until_loop(p, depth, stops[0].0, stops[0].1, path, cond, body, n)
            == semantics::until_loop(
            p,
            depth,
            stops.last().0,
            stops.last().1,
            path,
            cond,
            body,
            (n - stops.len() + 1) as nat,
        ),
    decreases stops.len(),
{
    if stops.len() > 1 {
        let rest = stops.skip(1);
        lemma_until_round(p, depth, path, cond, body, stops[0], stops[1], n);
        lemma_until(p, depth, path, cond, body, rest, (n - 1) as nat);
        assert(rest[0] == stops[1]);
        assert(rest.last() == stops.last());
    }
}

/// The end of a `do` loop at a stop with `n` rounds left.
proof fn lemma_until_end(
    p: Program,
    depth: nat,
    path: Seq<char>,
    cond: Seq<char>,
    body: Seq<Stmt>,
    last: State,
    vars: Env,
    n: nat,
)
    requires
        depth > 0,
    ensures
        ({
            let out = semantics::until_loop(p, depth, last, vars, path, cond, body, n);
            let round = semantics::exec_block(p, (depth - 1) as nat, last, vars, path, body, 0);
            if n == 0 {
                out == Some((last, vars, Flow::Fallthrough))
            } else {
                match round {
                    Some((st1, env1, Flow::Fallthrough)) => match semantics::eval_value(
                        p,
                        depth,
                        st1,
                        env1,
                        cond,
                    ) {
                        None => out is None,
                        Some((st2, env2, v)) => is_true(v) ==> out == Some(
                            (st2, env2, Flow::Fallthrough),
                        ),
                    },
                    _ => out == round,
                }
            }
        }),
{
    lemma_nested(p, depth, last, vars, path, body);
}

/// A `do` loop runs its body and then evaluates its condition, until the
/// condition holds, the body returns or aborts, or the greatest number of
/// rounds is reached. It ends where the last of these was evaluated, and
/// returns or aborts with its body.
pub proof fn law_do_loop(
    p: Program,
    depth: nat,
    st: State,
    env: Env,
    path: Seq<char>,
    cond: Seq<char>,
    body: Seq<Stmt>,
    line: u32,
    stops: Seq<(State, Env)>,
)
    requires
        depth > 0,
        0 < stops.len() <= ROUNDS + 1,
        stops[0] == (recorded(st, Op::Step { path, line }), env),
        until_rounds(p, depth, path, cond, body, stops),
    ensures
        ({
            let out = semantics::exec_stmt(
                p,
                depth,
                st,
                env,
                path,
                Stmt::DoUntil { body, cond, line },
            );
            let (last, vars) = stops.last();
            if stops.len() == ROUNDS + 1 {
                out == Some((last, vars, Flow::Fallthrough))
            } else {
                let round = semantics::exec_block(p, (depth - 1) as nat, last, vars, path, body, 0);
                match round {
                    Some((st1, env1, Flow::Fallthrough)) => match semantics::eval_value(
                        p,
                        depth,
                        st1,
                        env1,
                        cond,
                    ) {
                        None => out is None,
                        Some((st2, env2, v)) => is_true(v) ==> out == Some(
                            (st2, env2, Flow::Fallthrough),
                        ),
                    },
                    _ => out == round,
                }
            }
        }),
{
    lemma_until(p, depth, path, cond, body, stops, ROUNDS as nat);
    lemma_until_end(
        p,
        depth,
        path,
        cond,
        body,
        stops.last().0,
        stops.last().1,
        (ROUNDS - stops.len() + 1) as nat,
    );
}

/// An `if` evaluates its condition and runs the one block or the other, and
/// ends as that block does.
pub proof fn law_if_runs_one_block(
    p: Program,
    depth: nat,
    st: State,
    env: Env,
    path: Seq<char>,
    cond: Seq<char>,
    then_block: Seq<Stmt>,
    else_block: Seq<Stmt>,
    line: u32,
)
    requires
        depth > 0,
    ensures
        ({
            let out = semantics::exec_stmt(
                p,
                depth,
                st,
                env,
                path,
                Stmt::If { cond, then_block, else_block, line },
            );
            let at = recorded(st, Op::Step { path, line });
            match semantics::eval_value(p, depth, at, env, cond) {
                None => out is None,
                Some((st1, env1, v)) => {
                    let d = (depth - 1) as nat;
                    &&& is_true(v) ==> out == semantics::exec_block(
                        p,
                        d,
                        st1,
                        env1,
                        path,
                        then_block,
                        0,
                    )
                    &&& !is_true(v) ==> out == semantics::exec_block(
                        p,
                        d,
                        st1,
                        env1,
                        path,
                        else_block,
                        0,
                    )
                },
            }
        }),
{
}

/// A `match` runs the body of the first arm with the name of the value, with
/// the binder of the arm bound to the first field, and ends as that body does.
/// Behind it the binder is what it was before; all else is as the body left it.
/// Without such an arm nothing runs.
pub proof fn law_match_runs_one_arm(
    p: Program,
    depth: nat,
    st: State,
    env: Env,
    path: Seq<char>,
    scrutinee: Seq<char>,
    arms: Seq<Arm>,
    line: u32,
    i: int,
    mid: State,
    vars: Env,
    tag: Seq<char>,
    fields: Seq<(Seq<char>, Val)>,
)
    requires
        depth > 0,
        semantics::eval_value(p, depth, recorded(st, Op::Step { path, line }), env, scrutinee)
            == Some((mid, vars, Some(Val::Struct { ty_name: tag, fields }))),
        0 <= i <= arms.len(),
        forall|j: int| 0 <= j < i ==> (#[trigger] arms[j]).constructor != tag,
        i < arms.len() ==> arms[i].constructor == tag,
    ensures
        ({
            let out = semantics::exec_stmt(
                p,
                depth,
                st,
                env,
                path,
                Stmt::Match { scrutinee, arms, line },
            );
            if i == arms.len() {
                out == Some((mid, vars, Flow::Fallthrough))
            } else {
                let binds = arms[i].payload_binding is Some && fields.len() > 0;
                let binder = arms[i].payload_binding->0;
                let inner = if binds {
                    vars.insert(binder, fields[0].1)
                } else {
                    vars
                };
                match semantics::exec_block(
                    p,
                    (depth - 1) as nat,
                    mid,
                    inner,
                    path,
                    arms[i].body,
                    0,
                ) {
                    None => out is None,
                    Some((end, left, flow)) => {
                        &&& out is Some
                        &&& (out->0).0 == end
                        &&& (out->0).2 == flow
                        &&& (out->0).1 == if !binds {
                            left
                        } else if vars.dom().contains(binder) {
                            left.insert(binder, vars[binder])
                        } else {
                            left.remove(binder)
                        }
                    },
                }
            }
        }),
{
    let q = semantics::arm_for(arms, tag);
    text::lemma_first_from(0, arms.len() as int, q);
    assert forall|j: int| 0 <= j < arms.len() implies q(j) == (#[trigger] arms[j].constructor
        == tag) by {}
    if i < arms.len() {
        assert(q(i));
    }
    match semantics::chosen_arm(arms, tag) {
        Some(k) => {
            assert(q(k));
            assert(arms[k].constructor == tag);
            assert(k == i);
        },
        None => {
            assert(i == arms.len());
        },
    }
}

/// A `match` on what is no struct runs no arm.
pub proof fn law_match_needs_a_struct(
    p: Program,
    depth: nat,
    st: State,
    env: Env,
    path: Seq<char>,
    scrutinee: Seq<char>,
    arms: Seq<Arm>,
    line: u32,
    mid: State,
    vars: Env,
    v: Option<Val>,
)
    requires
        semantics::eval_value(p, depth, recorded(st, Op::Step { path, line }), env, scrutinee)
            == Some((mid, vars, v)),
        !(v matches Some(Val::Struct { .. })),
    ensures
        semantics::exec_stmt(p, depth, st, env, path, Stmt::Match { scrutinee, arms, line })
            == Some((mid, vars, Flow::Fallthrough)),
{
}

/// The value that a declared type makes of another: an integer declared as an
/// address or as coins becomes one, and everything else stays what it is.
pub open spec fn declared(ty: Option<Seq<char>>, v: Val) -> Val {
    if let Val::Int(i) = v {
        if ty == Some("address"@) {
            Val::Address { workchain: 0, hash: i }
        } else if ty == Some("coin"@) {
            Val::Coin(i)
        } else {
            v
        }
    } else {
        v
    }
}

/// A binding without a value leaves no trace but its step. One with a value
/// binds the name to it, touches no other variable, and records the name as
/// its last operation; the statement falls through.
pub proof fn law_binding_sets_its_variable(
    p: Program,
    depth: nat,
    st: State,
    env: Env,
    path: Seq<char>,
    name: Seq<char>,
    ty_name: Option<Seq<char>>,
    expr: Seq<char>,
    line: u32,
)
    ensures
        ({
            let at = recorded(st, Op::Step { path, line });
            let bound = semantics::exec_stmt(
                p,
                depth,
                st,
                env,
                path,
                Stmt::VarBinding { name, ty_name, expr, line },
            );
            let assigned = semantics::exec_stmt(
                p,
                depth,
                st,
                env,
                path,
                Stmt::Assign { name, expr, line },
            );
            match semantics::eval_value(p, depth, at, env, expr) {
                None => bound is None && assigned is None,
                Some((mid, vars, None)) => {
                    &&& bound == Some((mid, vars, Flow::Fallthrough))
                    &&& assigned == Some((mid, vars, Flow::Fallthrough))
                },
                Some((mid, vars, Some(v))) => {
                    &&& bound is Some && assigned is Some
                    &&& (bound->0).2 == Flow::Fallthrough
                    &&& (assigned->0).2 == Flow::Fallthrough
                    &&& (bound->0).1 == vars.insert(name, declared(ty_name, v))
                    &&& (assigned->0).1 == vars.insert(name, v)
                    &&& (bound->0).0.ops.len() > 0
                    &&& (bound->0).0.ops.last() matches Op::Variable { name: n, .. } && n == name
                    &&& (assigned->0).0.ops.len() > 0
                    &&& (assigned->0).0.ops.last() matches Op::Variable { name: n, .. } && n == name
                },
            }
        }),
{
}

/// A `return` ends with the value of its expression, where that was evaluated.
/// An expression on its own leaves what its evaluation left. A `throw` or an
/// `assert` ends at once.
pub proof fn law_simple_statements(
    p: Program,
    depth: nat,
    st: State,
    env: Env,
    path: Seq<char>,
    expr: Seq<char>,
    line: u32,
)
    ensures
        ({
            let at = recorded(st, Op::Step { path, line });
            let done = semantics::exec_stmt(p, depth, st, env, path, Stmt::Return { expr, line });
            let seen = semantics::exec_stmt(
                p,
                depth,
                st,
                env,
                path,
                Stmt::ExprStatement { expr, line },
            );
            match semantics::eval_value(p, depth, at, env, expr) {
                None => done is None && seen is None,
                Some((mid, vars, v)) => {
                    &&& done == Some((mid, vars, Flow::Returned(v)))
                    &&& seen == Some((mid, vars, Flow::Fallthrough))
                },
            }
        }),
        forall|s: Stmt|
            s is Throw || s is Assert ==> #[trigger] semantics::exec_stmt(
                p,
                depth,
                st,
                env,
                path,
                s,
            ) == Some((st, env, Flow::Aborted)),
{
}

/// A `throwIf` whose condition holds and a `throwUnless` whose condition does
/// not end the block, with an error event that names the statement and its
/// code as the last operation; otherwise they leave what the condition left.
pub proof fn law_conditional_throw(
    p: Program,
    depth: nat,
    st: State,
    env: Env,
    path: Seq<char>,
    code: Seq<char>,
    condition: Seq<char>,
    line: u32,
)
    ensures
        ({
            let at = recorded(st, Op::Step { path, line });
            let on = semantics::exec_stmt(
                p,
                depth,
                st,
                env,
                path,
                Stmt::GatedThrow { code, condition, mode: GateMode::If, line },
            );
            let off = semantics::exec_stmt(
                p,
                depth,
                st,
                env,
                path,
                Stmt::GatedThrow { code, condition, mode: GateMode::Unless, line },
            );
            match semantics::eval_value(p, depth, at, env, condition) {
                None => on is None && off is None,
                Some((mid, vars, v)) => {
                    let passed = Some((mid, vars, Flow::Fallthrough));
                    let thrown = |label: Seq<char>|
                        Some(
                            (
                                recorded(
                                    mid,
                                    Op::Event {
                                        channel: EventKind::Error,
                                        metadata: "TolkThrow"@,
                                        content: label + ": code "@ + code,
                                    },
                                ),
                                vars,
                                Flow::Aborted,
                            ),
                        );
                    if is_true(v) {
                        on == thrown("throwIf"@) && off == passed
                    } else {
                        on == passed && off == thrown("throwUnless"@)
                    }
                },
            }
        }),
{
}

} // verus!
