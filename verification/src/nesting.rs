//! What holds of every evaluation: a greater depth changes nothing where a
//! smaller one suffices, and the trace grows well formed.

use vstd::prelude::*;

use crate::ast::{Func, Stmt};
use crate::cells;
use crate::ops;
use crate::ops::{Op, Rec, State};
use crate::rewrite;
use crate::rewrite::Env;
use crate::semantics;
use crate::semantics::{Flow, Out, Program};
use crate::syntax;
use crate::text;
use crate::tvm;
use crate::value::Val;
use crate::wellformed;

verus! {

/// The state at the end of an evaluation that came to one.
pub open spec fn end_state<T>(st: State, out: Out<T>) -> State {
    match out {
        Some((next, _, _)) => next,
        None => st,
    }
}

/// A run with a greater depth came to the same end, which is reached from
/// `st` in good order.
pub open spec fn settled<T>(st: State, small: Out<T>, great: Out<T>) -> bool {
    great == small && wellformed::steady(st, end_state(st, small))
}

/// The state in which a statement does its work: behind the step to its line.
pub open spec fn stepped(st: State, path: Seq<char>, s: Stmt) -> State {
    ops::emitted(st, Op::Step { path, line: s.line() })
}

proof fn lemma_machine_value(st: State, env: Env, x: Seq<char>)
    ensures
        wellformed::steady(st, semantics::machine_value(st, env, x).0),
{
    wellformed::lemma_steady_refl(st);
    if let Err(fault) = tvm::checked_value(x, rewrite::int_env(env)) {
        wellformed::lemma_steady_one(
            st,
            Op::Event {
                channel: ops::EventKind::Error,
                metadata: "tvm_exception"@,
                content: tvm::fault_text(fault),
            },
        );
    }
}

pub proof fn lemma_eval_value(p: Program, d: nat, g: nat, st: State, env: Env, e: Seq<char>)
    requires
        d <= g,
        semantics::eval_value(p, d, st, env, e) is Some,
    ensures
        settled(
            st,
            semantics::eval_value(p, d, st, env, e),
            semantics::eval_value(p, g, st, env, e),
        ),
    decreases d, 0int, 0int,
{
    broadcast use wellformed::lemma_steady_trans;

    let x = text::trimmed(rewrite::casts_dropped(e, 0));
    wellformed::lemma_steady_refl(st);
    if x.len() > 0 && !(syntax::slice_shape(x) is Some) {
        let d1 = (d - 1) as nat;
        let g1 = (g - 1) as nat;
        lemma_ton_call(p, d1, g1, st, env, x);
        if let Some((st1, env1, None)) = semantics::ton_call(p, d1, st, env, x) {
            lemma_eval_literal(p, d1, g1, st1, env1, x);
        }
    }
}

proof fn lemma_ton_call(p: Program, d: nat, g: nat, st: State, env: Env, x: Seq<char>)
    requires
        d <= g,
        semantics::ton_call(p, d, st, env, x) is Some,
    ensures
        settled(
            st,
            semantics::ton_call(p, d, st, env, x),
            semantics::ton_call(p, g, st, env, x),
        ),
    decreases d, 10int, 0int,
{
    wellformed::lemma_steady_refl(st);
    match syntax::call_shape(x) {
        Some((name, args)) => {
            if args.len() == 0 && semantics::context_value(name) is Some {
            } else if args.len() == 0 && (name == "get_data"@ || name == "load_data"@) {
                let (payload, refs) = semantics::stored_contents(st.storage);
                let summary = crate::value::payload_refs_text("Cell"@, payload, refs);
                wellformed::lemma_steady_one(
                    st,
                    semantics::storage_event(ops::EventKind::Read, name, summary),
                );
            } else if args.len() == 1 && (name == "set_data"@ || name == "save_data"@) {
                lemma_store_data(p, d, g, st, env, name, args[0]);
            } else {
                lemma_method_call(p, d, g, st, env, x);
            }
        },
        None => {
            lemma_method_call(p, d, g, st, env, x);
        },
    }
}

proof fn lemma_store_data(
    p: Program,
    d: nat,
    g: nat,
    st: State,
    env: Env,
    name: Seq<char>,
    arg: Seq<char>,
)
    requires
        d <= g,
        semantics::store_data(p, d, st, env, name, arg) is Some,
    ensures
        settled(
            st,
            semantics::store_data(p, d, st, env, name, arg),
            semantics::store_data(p, g, st, env, name, arg),
        ),
    decreases d, 9int, 0int,
{
    lemma_eval_value(p, d, g, st, env, arg);
    if let Some((st1, env1, Some(v))) = semantics::eval_value(p, d, st, env, arg) {
        let event = semantics::storage_event(
            ops::EventKind::Write,
            name,
            semantics::data_summary(v),
        );
        wellformed::lemma_steady_emit(st, st1, event);
        wellformed::lemma_steady_storage(st, ops::emitted(st1, event), Some(v));
    }
}

proof fn lemma_method_call(p: Program, d: nat, g: nat, st: State, env: Env, x: Seq<char>)
    requires
        d <= g,
        semantics::method_call(p, d, st, env, x) is Some,
    ensures
        settled(
            st,
            semantics::method_call(p, d, st, env, x),
            semantics::method_call(p, g, st, env, x),
        ),
    decreases d, 9int, 0int,
{
    broadcast use wellformed::lemma_steady_trans;

    wellformed::lemma_steady_refl(st);
    if let Some((lhs, method, args)) = syntax::method_shape(x) {
        lemma_eval_each(p, d, g, st, env, args, 0, Seq::empty());
        if let Some((st1, env1, values)) = semantics::eval_each(
            p,
            d,
            st,
            env,
            args,
            0,
            Seq::empty(),
        ) {
            lemma_eval_value(p, d, g, st1, env1, lhs);
            if let Some((st2, env2, Some(base))) = semantics::eval_value(p, d, st1, env1, lhs) {
                lemma_on_receiver(p, d, g, st2, env2, lhs, method, args, values, base);
            }
        }
    }
}

proof fn lemma_on_receiver(
    p: Program,
    d: nat,
    g: nat,
    st: State,
    env: Env,
    lhs: Seq<char>,
    method: Seq<char>,
    args: Seq<Seq<char>>,
    values: Seq<Option<Val>>,
    base: Val,
)
    requires
        d <= g,
        semantics::on_receiver(p, d, st, env, lhs, method, args, values, base) is Some,
    ensures
        settled(
            st,
            semantics::on_receiver(p, d, st, env, lhs, method, args, values, base),
            semantics::on_receiver(p, g, st, env, lhs, method, args, values, base),
        ),
    decreases d, 8int, 0int,
{
    wellformed::lemma_steady_refl(st);
    if cells::method_outcome(method, base, semantics::first_value(values)) is Unknown {
        lemma_user_method(p, d, g, st, env, method, args, values, base);
    }
}

proof fn lemma_user_method(
    p: Program,
    d: nat,
    g: nat,
    st: State,
    env: Env,
    method: Seq<char>,
    args: Seq<Seq<char>>,
    values: Seq<Option<Val>>,
    base: Val,
)
    requires
        d <= g,
        semantics::user_method(p, d, st, env, method, args, values, base) is Some,
    ensures
        settled(
            st,
            semantics::user_method(p, d, st, env, method, args, values, base),
            semantics::user_method(p, g, st, env, method, args, values, base),
        ),
    decreases d, 7int, 0int,
{
    broadcast use wellformed::lemma_steady_trans;

    wellformed::lemma_steady_refl(st);
    if let Val::Struct { ty_name, .. } = base {
        if let Some(i) = semantics::function_named(p.funcs, ty_name + "."@ + method) {
            lemma_complete_args(p, d, g, st, env, args, values, 0, seq![base]);
            if let Some((st1, env1, Some(all))) = semantics::complete_args(
                p,
                d,
                st,
                env,
                args,
                values,
                0,
                seq![base],
            ) {
                lemma_call_function(p, d, g, st1, p.funcs[i], false, all);
            }
        }
    }
}

proof fn lemma_eval_each(
    p: Program,
    d: nat,
    g: nat,
    st: State,
    env: Env,
    args: Seq<Seq<char>>,
    i: int,
    done: Seq<Option<Val>>,
)
    requires
        d <= g,
        semantics::eval_each(p, d, st, env, args, i, done) is Some,
    ensures
        settled(
            st,
            semantics::eval_each(p, d, st, env, args, i, done),
            semantics::eval_each(p, g, st, env, args, i, done),
        ),
    decreases d, 1int, args.len() - i,
{
    broadcast use wellformed::lemma_steady_trans;

    wellformed::lemma_steady_refl(st);
    if i < args.len() {
        lemma_eval_value(p, d, g, st, env, args[i]);
        if let Some((st1, env1, v)) = semantics::eval_value(p, d, st, env, args[i]) {
            lemma_eval_each(p, d, g, st1, env1, args, i + 1, done.push(v));
        }
    }
}

proof fn lemma_eval_list(
    p: Program,
    d: nat,
    g: nat,
    st: State,
    env: Env,
    args: Seq<Seq<char>>,
    i: int,
    done: Seq<Val>,
)
    requires
        d <= g,
        semantics::eval_list(p, d, st, env, args, i, done) is Some,
    ensures
        settled(
            st,
            semantics::eval_list(p, d, st, env, args, i, done),
            semantics::eval_list(p, g, st, env, args, i, done),
        ),
    decreases d, 1int, args.len() - i,
{
    broadcast use wellformed::lemma_steady_trans;

    wellformed::lemma_steady_refl(st);
    if i < args.len() {
        lemma_eval_value(p, d, g, st, env, args[i]);
        if let Some((st1, env1, Some(v))) = semantics::eval_value(p, d, st, env, args[i]) {
            lemma_eval_list(p, d, g, st1, env1, args, i + 1, done.push(v));
        }
    }
}

proof fn lemma_eval_fields(
    p: Program,
    d: nat,
    g: nat,
    st: State,
    env: Env,
    fields: Seq<(Seq<char>, Seq<char>)>,
    i: int,
    done: Seq<(Seq<char>, Val)>,
)
    requires
        d <= g,
        semantics::eval_fields(p, d, st, env, fields, i, done) is Some,
    ensures
        settled(
            st,
            semantics::eval_fields(p, d, st, env, fields, i, done),
            semantics::eval_fields(p, g, st, env, fields, i, done),
        ),
    decreases d, 1int, fields.len() - i,
{
    broadcast use wellformed::lemma_steady_trans;

    wellformed::lemma_steady_refl(st);
    if i < fields.len() {
        lemma_eval_value(p, d, g, st, env, fields[i].1);
        if let Some((st1, env1, Some(v))) = semantics::eval_value(p, d, st, env, fields[i].1) {
            lemma_eval_fields(p, d, g, st1, env1, fields, i + 1, done.push((fields[i].0, v)));
        }
    }
}

proof fn lemma_complete_args(
    p: Program,
    d: nat,
    g: nat,
    st: State,
    env: Env,
    args: Seq<Seq<char>>,
    values: Seq<Option<Val>>,
    i: int,
    done: Seq<Val>,
)
    requires
        d <= g,
        semantics::complete_args(p, d, st, env, args, values, i, done) is Some,
    ensures
        settled(
            st,
            semantics::complete_args(p, d, st, env, args, values, i, done),
            semantics::complete_args(p, g, st, env, args, values, i, done),
        ),
    decreases d, 1int, args.len() - i,
{
    broadcast use wellformed::lemma_steady_trans;

    wellformed::lemma_steady_refl(st);
    if i < args.len() {
        if i < values.len() && values[i] is Some {
            lemma_complete_args(p, d, g, st, env, args, values, i + 1, done.push(values[i]->0));
        } else {
            lemma_eval_value(p, d, g, st, env, args[i]);
            if let Some((st1, env1, Some(v))) = semantics::eval_value(p, d, st, env, args[i]) {
                lemma_complete_args(p, d, g, st1, env1, args, values, i + 1, done.push(v));
            }
        }
    }
}

proof fn lemma_eval_literal(p: Program, d: nat, g: nat, st: State, env: Env, x: Seq<char>)
    requires
        d <= g,
        semantics::eval_literal(p, d, st, env, x) is Some,
    ensures
        settled(
            st,
            semantics::eval_literal(p, d, st, env, x),
            semantics::eval_literal(p, g, st, env, x),
        ),
    decreases d, 9int, 0int,
{
    match syntax::struct_shape(x) {
        Some((_, fields)) => {
            lemma_eval_fields(p, d, g, st, env, fields, 0, Seq::empty());
        },
        None => {
            match syntax::tuple_shape(x) {
                Some(parts) => {
                    lemma_eval_list(p, d, g, st, env, parts, 0, Seq::empty());
                },
                None => {
                    lemma_eval_access(p, d, g, st, env, x);
                },
            }
        },
    }
}

proof fn lemma_eval_access(p: Program, d: nat, g: nat, st: State, env: Env, x: Seq<char>)
    requires
        d <= g,
        semantics::eval_access(p, d, st, env, x) is Some,
    ensures
        settled(
            st,
            semantics::eval_access(p, d, st, env, x),
            semantics::eval_access(p, g, st, env, x),
        ),
    decreases d, 8int, 0int,
{
    broadcast use wellformed::lemma_steady_trans;

    wellformed::lemma_steady_refl(st);
    if !(syntax::identifier(x) && env.dom().contains(x)) {
        match syntax::dot_shape(x) {
            None => {
                lemma_eval_call(p, d, g, st, env, x);
            },
            Some((lhs, field)) => {
                lemma_eval_value(p, d, g, st, env, lhs);
                match semantics::eval_value(p, d, st, env, lhs) {
                    Some((st1, env1, None)) => {
                        lemma_eval_call(p, d, g, st1, env1, x);
                    },
                    Some((st1, env1, Some(base))) => {
                        if rewrite::projected(base, field) is None {
                            lemma_eval_call(p, d, g, st1, env1, x);
                        }
                    },
                    None => {},
                }
            },
        }
    }
}

proof fn lemma_eval_call(p: Program, d: nat, g: nat, st: State, env: Env, x: Seq<char>)
    requires
        d <= g,
        semantics::eval_call(p, d, st, env, x) is Some,
    ensures
        settled(
            st,
            semantics::eval_call(p, d, st, env, x),
            semantics::eval_call(p, g, st, env, x),
        ),
    decreases d, 7int, 0int,
{
    broadcast use wellformed::lemma_steady_trans;

    match semantics::user_call(p.funcs, x) {
        None => {
            lemma_eval_fallback(p, d, g, st, env, x);
        },
        Some((i, args)) => {
            lemma_eval_list(p, d, g, st, env, args, 0, Seq::empty());
            match semantics::eval_list(p, d, st, env, args, 0, Seq::empty()) {
                Some((st1, env1, None)) => {
                    lemma_eval_fallback(p, d, g, st1, env1, x);
                },
                Some((st1, env1, Some(vals))) => {
                    lemma_call_function(p, d, g, st1, p.funcs[i], false, vals);
                },
                None => {},
            }
        },
    }
}

proof fn lemma_eval_fallback(p: Program, d: nat, g: nat, st: State, env: Env, x: Seq<char>)
    requires
        d <= g,
        semantics::eval_fallback(p, d, st, env, x) is Some,
    ensures
        settled(
            st,
            semantics::eval_fallback(p, d, st, env, x),
            semantics::eval_fallback(p, g, st, env, x),
        ),
    decreases d, 6int, 0int,
{
    lemma_eval_int(p, d, g, st, env, x);
}

proof fn lemma_eval_int(p: Program, d: nat, g: nat, st: State, env: Env, e: Seq<char>)
    requires
        d <= g,
        semantics::eval_int(p, d, st, env, e) is Some,
    ensures
        settled(
            st,
            semantics::eval_int(p, d, st, env, e),
            semantics::eval_int(p, g, st, env, e),
        ),
    decreases d, 5int, 0int,
{
    broadcast use wellformed::lemma_steady_trans;

    wellformed::lemma_steady_refl(st);
    let y = text::trimmed(rewrite::casts_dropped(e, 0));
    let x = rewrite::accesses_resolved(y, 0, env);
    if y.len() > 0 {
        match semantics::user_call(p.funcs, x) {
            None => {
                lemma_machine_value(st, env, x);
            },
            Some((i, args)) => {
                lemma_eval_list(p, d, g, st, env, args, 0, Seq::empty());
                match semantics::eval_list(p, d, st, env, args, 0, Seq::empty()) {
                    Some((st1, env1, None)) => {
                        lemma_machine_value(st1, env1, x);
                    },
                    Some((st1, env1, Some(vals))) => {
                        lemma_call_function(p, d, g, st1, p.funcs[i], false, vals);
                    },
                    None => {},
                }
            },
        }
    }
}

/// The arguments of a call, recorded from parameter `i` on.
proof fn lemma_args_recorded(
    st: State,
    variants: Set<Seq<char>>,
    params: Seq<(Seq<char>, Seq<char>)>,
    args: Seq<Val>,
    i: int,
)
    ensures
        wellformed::steady(st, semantics::args_recorded(st, variants, params, args, i)),
    decreases params.len() - i,
{
    broadcast use wellformed::lemma_steady_trans;

    wellformed::lemma_steady_refl(st);
    if i < params.len() {
        let (mid, rec) = if i < args.len() {
            ops::record_of(st, variants, args[i])
        } else {
            (st, Rec::Nothing)
        };
        if i < args.len() {
            wellformed::lemma_record(st, variants, args[i]);
        }
        let op = Op::Arg { name: params[i].0, value: rec };
        wellformed::lemma_steady_emit(st, mid, op);
        lemma_args_recorded(ops::emitted(mid, op), variants, params, args, i + 1);
    }
}

/// A greater depth does not change a call that a smaller one suffices for, and
/// the call is recorded in good order.
pub proof fn lemma_call_function(
    p: Program,
    d: nat,
    g: nat,
    st: State,
    f: Func,
    entry: bool,
    args: Seq<Val>,
)
    requires
        d <= g,
        semantics::call_function(p, d, st, f, entry, args) is Some,
    ensures
        semantics::call_function(p, g, st, f, entry, args) == semantics::call_function(
            p,
            d,
            st,
            f,
            entry,
            args,
        ),
        match semantics::call_function(p, d, st, f, entry, args) {
            Some((next, _)) => wellformed::steady(st, next),
            None => true,
        },
    decreases d, 4int, 0int,
{
    broadcast use wellformed::lemma_steady_trans;

    let env = semantics::params_bound(f.params, args, semantics::bound_count(f.params, args));
    let opened = semantics::call_opened(st, p.variants, f, entry, args);
    lemma_exec_block(p, d, g, opened, env, f.source_path, f.body, 0);
    let header = Op::Function { name: f.name, path: f.source_path, line: f.line };
    wellformed::lemma_steady_one(st, header);
    if let Some((ended, _, flow)) = semantics::exec_block(
        p,
        d,
        opened,
        env,
        f.source_path,
        f.body,
        0,
    ) {
        if !entry {
            let registered = ops::emitted(st, header);
            let staged = semantics::args_recorded(registered, p.variants, f.params, args, 0);
            lemma_args_recorded(registered, p.variants, f.params, args, 0);
            match semantics::returned(flow) {
                Some(v) => {
                    wellformed::lemma_record(ended, p.variants, v);
                    let (recorded, rec) = ops::record_of(ended, p.variants, v);
                    wellformed::lemma_steady_call(st, staged, ended, recorded, rec);
                },
                None => {
                    wellformed::lemma_steady_refl(ended);
                    wellformed::lemma_steady_call(st, staged, ended, ended, Rec::Nothing);
                },
            }
        }
    }
}

pub proof fn lemma_exec_block(
    p: Program,
    d: nat,
    g: nat,
    st: State,
    env: Env,
    path: Seq<char>,
    stmts: Seq<Stmt>,
    i: int,
)
    requires
        d <= g,
        semantics::exec_block(p, d, st, env, path, stmts, i) is Some,
    ensures
        settled(
            st,
            semantics::exec_block(p, d, st, env, path, stmts, i),
            semantics::exec_block(p, g, st, env, path, stmts, i),
        ),
    decreases d, 3int, stmts.len() - i,
{
    broadcast use wellformed::lemma_steady_trans;

    wellformed::lemma_steady_refl(st);
    if i < stmts.len() {
        lemma_exec_stmt(p, d, g, st, env, path, stmts[i]);
        if let Some((st1, env1, Flow::Fallthrough)) = semantics::exec_stmt(
            p,
            d,
            st,
            env,
            path,
            stmts[i],
        ) {
            lemma_exec_block(p, d, g, st1, env1, path, stmts, i + 1);
        }
    }
}

pub proof fn lemma_nested_block(
    p: Program,
    d: nat,
    g: nat,
    st: State,
    env: Env,
    path: Seq<char>,
    stmts: Seq<Stmt>,
)
    requires
        d <= g,
        semantics::nested_block(p, d, st, env, path, stmts) is Some,
    ensures
        settled(
            st,
            semantics::nested_block(p, d, st, env, path, stmts),
            semantics::nested_block(p, g, st, env, path, stmts),
        ),
    decreases d, 0int, 0int,
{
    if d > 0 {
        lemma_exec_block(p, (d - 1) as nat, (g - 1) as nat, st, env, path, stmts, 0);
    }
}

pub proof fn lemma_exec_stmt(
    p: Program,
    d: nat,
    g: nat,
    st: State,
    env: Env,
    path: Seq<char>,
    s: Stmt,
)
    requires
        d <= g,
        semantics::exec_stmt(p, d, st, env, path, s) is Some,
    ensures
        settled(
            st,
            semantics::exec_stmt(p, d, st, env, path, s),
            semantics::exec_stmt(p, g, st, env, path, s),
        ),
        !(s is Throw || s is Assert) ==> wellformed::steady(
            stepped(st, path, s),
            end_state(st, semantics::exec_stmt(p, d, st, env, path, s)),
        ),
    decreases d, 2int, 1int,
{
    match s {
        Stmt::VarBinding { .. } => {
            lemma_exec_var(p, d, g, st, env, path, s);
        },
        Stmt::Assign { .. } => {
            lemma_exec_assign(p, d, g, st, env, path, s);
        },
        Stmt::Return { .. } | Stmt::ExprStatement { .. } | Stmt::GatedThrow { .. } => {
            lemma_exec_expr(p, d, g, st, env, path, s);
        },
        Stmt::Throw { .. } | Stmt::Assert { .. } => {
            wellformed::lemma_steady_refl(st);
        },
        Stmt::If { .. } | Stmt::Match { .. } => {
            lemma_exec_branch(p, d, g, st, env, path, s);
        },
        Stmt::While { .. } | Stmt::Repeat { .. } | Stmt::DoUntil { .. } => {
            lemma_exec_loop(p, d, g, st, env, path, s);
        },
    }
}

#[verifier::spinoff_prover]
#[verifier::rlimit(30)]
proof fn lemma_exec_var(
    p: Program,
    d: nat,
    g: nat,
    st: State,
    env: Env,
    path: Seq<char>,
    s: Stmt,
)
    requires
        d <= g,
        s is VarBinding,
        semantics::exec_stmt(p, d, st, env, path, s) is Some,
    ensures
        settled(
            st,
            semantics::exec_stmt(p, d, st, env, path, s),
            semantics::exec_stmt(p, g, st, env, path, s),
        ),
        wellformed::steady(
            stepped(st, path, s),
            end_state(st, semantics::exec_stmt(p, d, st, env, path, s)),
        ),
    decreases d, 2int, 0int,
{
    broadcast use wellformed::lemma_steady_trans;

    wellformed::lemma_steady_refl(st);
    if let Stmt::VarBinding { name, ty_name, expr, line } = s {
        let op = Op::Step { path, line };
        let at = ops::emitted(st, op);
        wellformed::lemma_steady_one(st, op);
        lemma_eval_value(p, d, g, at, env, expr);
        if let Some((st1, env1, Some(raw))) = semantics::eval_value(p, d, at, env, expr) {
            let v = semantics::lifted(ty_name, raw);
            lemma_binding(st1, p.variants, ty_name, v, name);
        }
    }
}

#[verifier::spinoff_prover]
#[verifier::rlimit(30)]
proof fn lemma_exec_assign(
    p: Program,
    d: nat,
    g: nat,
    st: State,
    env: Env,
    path: Seq<char>,
    s: Stmt,
)
    requires
        d <= g,
        s is Assign,
        semantics::exec_stmt(p, d, st, env, path, s) is Some,
    ensures
        settled(
            st,
            semantics::exec_stmt(p, d, st, env, path, s),
            semantics::exec_stmt(p, g, st, env, path, s),
        ),
        wellformed::steady(
            stepped(st, path, s),
            end_state(st, semantics::exec_stmt(p, d, st, env, path, s)),
        ),
    decreases d, 2int, 0int,
{
    broadcast use wellformed::lemma_steady_trans;

    wellformed::lemma_steady_refl(st);
    if let Stmt::Assign { name, expr, line } = s {
        let op = Op::Step { path, line };
        let at = ops::emitted(st, op);
        wellformed::lemma_steady_one(st, op);
        lemma_eval_value(p, d, g, at, env, expr);
        if let Some((st1, env1, Some(v))) = semantics::eval_value(p, d, at, env, expr) {
            wellformed::lemma_record(st1, p.variants, v);
            let (st2, rec) = ops::record_of(st1, p.variants, v);
            wellformed::lemma_steady_emit(st1, st2, Op::Variable { name, value: rec });
        }
    }
}

#[verifier::spinoff_prover]
#[verifier::rlimit(30)]
proof fn lemma_exec_expr(
    p: Program,
    d: nat,
    g: nat,
    st: State,
    env: Env,
    path: Seq<char>,
    s: Stmt,
)
    requires
        d <= g,
        s is Return || s is ExprStatement || s is GatedThrow,
        semantics::exec_stmt(p, d, st, env, path, s) is Some,
    ensures
        settled(
            st,
            semantics::exec_stmt(p, d, st, env, path, s),
            semantics::exec_stmt(p, g, st, env, path, s),
        ),
        wellformed::steady(
            stepped(st, path, s),
            end_state(st, semantics::exec_stmt(p, d, st, env, path, s)),
        ),
    decreases d, 2int, 0int,
{
    broadcast use wellformed::lemma_steady_trans;

    wellformed::lemma_steady_refl(st);
    match s {
        Stmt::Return { expr, line } => {
            let op = Op::Step { path, line };
            wellformed::lemma_steady_one(st, op);
            lemma_eval_value(p, d, g, ops::emitted(st, op), env, expr);
        },
        Stmt::ExprStatement { expr, line } => {
            let op = Op::Step { path, line };
            wellformed::lemma_steady_one(st, op);
            lemma_eval_value(p, d, g, ops::emitted(st, op), env, expr);
        },
        Stmt::GatedThrow { code, condition, mode, line } => {
            let op = Op::Step { path, line };
            let at = ops::emitted(st, op);
            wellformed::lemma_steady_one(st, op);
            lemma_eval_value(p, d, g, at, env, condition);
            if let Some((st1, _, _)) = semantics::eval_value(p, d, at, env, condition) {
                let content = semantics::gate_label(mode) + ": code "@ + code;
                wellformed::lemma_steady_one(
                    st1,
                    semantics::failure_event("TolkThrow"@, content),
                );
            }
        },
        _ => {},
    }
}

#[verifier::spinoff_prover]
#[verifier::rlimit(30)]
proof fn lemma_exec_branch(
    p: Program,
    d: nat,
    g: nat,
    st: State,
    env: Env,
    path: Seq<char>,
    s: Stmt,
)
    requires
        d <= g,
        s is If || s is Match,
        semantics::exec_stmt(p, d, st, env, path, s) is Some,
    ensures
        settled(
            st,
            semantics::exec_stmt(p, d, st, env, path, s),
            semantics::exec_stmt(p, g, st, env, path, s),
        ),
        wellformed::steady(
            stepped(st, path, s),
            end_state(st, semantics::exec_stmt(p, d, st, env, path, s)),
        ),
    decreases d, 2int, 0int,
{
    broadcast use wellformed::lemma_steady_trans;

    wellformed::lemma_steady_refl(st);
    match s {
        Stmt::If { cond, then_block, else_block, line } => {
            let op = Op::Step { path, line };
            let at = ops::emitted(st, op);
            wellformed::lemma_steady_one(st, op);
            lemma_eval_value(p, d, g, at, env, cond);
            if let Some((st1, env1, v)) = semantics::eval_value(p, d, at, env, cond) {
                let block = if semantics::truthy(v) {
                    then_block
                } else {
                    else_block
                };
                lemma_nested_block(p, d, g, st1, env1, path, block);
            }
        },
        Stmt::Match { scrutinee, arms, line } => {
            let op = Op::Step { path, line };
            let at = ops::emitted(st, op);
            wellformed::lemma_steady_one(st, op);
            lemma_eval_value(p, d, g, at, env, scrutinee);
            if let Some((st1, env1, Some(Val::Struct { ty_name, fields }))) = semantics::eval_value(
                p,
                d,
                at,
                env,
                scrutinee,
            ) {
                if let Some(i) = semantics::chosen_arm(arms, ty_name) {
                    lemma_nested_block(
                        p,
                        d,
                        g,
                        st1,
                        semantics::arm_env(env1, arms[i], fields),
                        path,
                        arms[i].body,
                    );
                }
            }
        },
        _ => {},
    }
}

#[verifier::spinoff_prover]
#[verifier::rlimit(30)]
proof fn lemma_exec_loop(
    p: Program,
    d: nat,
    g: nat,
    st: State,
    env: Env,
    path: Seq<char>,
    s: Stmt,
)
    requires
        d <= g,
        s is While || s is Repeat || s is DoUntil,
        semantics::exec_stmt(p, d, st, env, path, s) is Some,
    ensures
        settled(
            st,
            semantics::exec_stmt(p, d, st, env, path, s),
            semantics::exec_stmt(p, g, st, env, path, s),
        ),
        wellformed::steady(
            stepped(st, path, s),
            end_state(st, semantics::exec_stmt(p, d, st, env, path, s)),
        ),
    decreases d, 2int, 0int,
{
    broadcast use wellformed::lemma_steady_trans;

    wellformed::lemma_steady_refl(st);
    match s {
        Stmt::While { cond, body, line } => {
            let op = Op::Step { path, line };
            wellformed::lemma_steady_one(st, op);
            lemma_while(
                p,
                d,
                g,
                ops::emitted(st, op),
                env,
                path,
                cond,
                body,
                semantics::LOOP_ITERATION_BOUND as nat,
            );
        },
        Stmt::Repeat { count_expr, body, line } => {
            let op = Op::Step { path, line };
            let at = ops::emitted(st, op);
            wellformed::lemma_steady_one(st, op);
            lemma_eval_value(p, d, g, at, env, count_expr);
            if let Some((st1, env1, v)) = semantics::eval_value(p, d, at, env, count_expr) {
                lemma_repeat(p, d, g, st1, env1, path, body, semantics::repeat_count(v));
            }
        },
        Stmt::DoUntil { body, cond, line } => {
            let op = Op::Step { path, line };
            wellformed::lemma_steady_one(st, op);
            lemma_until(
                p,
                d,
                g,
                ops::emitted(st, op),
                env,
                path,
                cond,
                body,
                semantics::LOOP_ITERATION_BOUND as nat,
            );
        },
        _ => {},
    }
}

/// A variable is recorded in good order.
proof fn lemma_binding(
    st: State,
    variants: Set<Seq<char>>,
    ty: Option<Seq<char>>,
    v: Val,
    name: Seq<char>,
)
    ensures
        ({
            let (next, rec) = semantics::binding_record(st, variants, ty, v);
            wellformed::steady(st, ops::emitted(next, Op::Variable { name, value: rec }))
        }),
{
    let (next, rec) = semantics::binding_record(st, variants, ty, v);
    wellformed::lemma_steady_refl(st);
    match v {
        Val::Int(_) => {
            wellformed::lemma_type_number(st.types, "int"@);
            if let Some(t) = ty {
                wellformed::lemma_type_number(st.types, t);
            }
        },
        _ => {
            wellformed::lemma_record(st, variants, v);
        },
    }
    wellformed::lemma_steady_emit(st, next, Op::Variable { name, value: rec });
}

proof fn lemma_while(
    p: Program,
    d: nat,
    g: nat,
    st: State,
    env: Env,
    path: Seq<char>,
    cond: Seq<char>,
    body: Seq<Stmt>,
    n: nat,
)
    requires
        d <= g,
        semantics::while_loop(p, d, st, env, path, cond, body, n) is Some,
    ensures
        settled(
            st,
            semantics::while_loop(p, d, st, env, path, cond, body, n),
            semantics::while_loop(p, g, st, env, path, cond, body, n),
        ),
    decreases d, 1int, n,
{
    broadcast use wellformed::lemma_steady_trans;

    wellformed::lemma_steady_refl(st);
    if n > 0 {
        lemma_eval_value(p, d, g, st, env, cond);
        if let Some((st1, env1, v)) = semantics::eval_value(p, d, st, env, cond) {
            if semantics::truthy(v) {
                lemma_nested_block(p, d, g, st1, env1, path, body);
                if let Some((st2, env2, Flow::Fallthrough)) = semantics::nested_block(
                    p,
                    d,
                    st1,
                    env1,
                    path,
                    body,
                ) {
                    lemma_while(p, d, g, st2, env2, path, cond, body, (n - 1) as nat);
                }
            }
        }
    }
}

proof fn lemma_repeat(
    p: Program,
    d: nat,
    g: nat,
    st: State,
    env: Env,
    path: Seq<char>,
    body: Seq<Stmt>,
    n: nat,
)
    requires
        d <= g,
        semantics::repeat_loop(p, d, st, env, path, body, n) is Some,
    ensures
        settled(
            st,
            semantics::repeat_loop(p, d, st, env, path, body, n),
            semantics::repeat_loop(p, g, st, env, path, body, n),
        ),
    decreases d, 1int, n,
{
    broadcast use wellformed::lemma_steady_trans;

    wellformed::lemma_steady_refl(st);
    if n > 0 {
        lemma_nested_block(p, d, g, st, env, path, body);
        if let Some((st1, env1, Flow::Fallthrough)) = semantics::nested_block(
            p,
            d,
            st,
            env,
            path,
            body,
        ) {
            lemma_repeat(p, d, g, st1, env1, path, body, (n - 1) as nat);
        }
    }
}

pub proof fn lemma_until(
    p: Program,
    d: nat,
    g: nat,
    st: State,
    env: Env,
    path: Seq<char>,
    cond: Seq<char>,
    body: Seq<Stmt>,
    n: nat,
)
    requires
        d <= g,
        semantics::until_loop(p, d, st, env, path, cond, body, n) is Some,
    ensures
        settled(
            st,
            semantics::until_loop(p, d, st, env, path, cond, body, n),
            semantics::until_loop(p, g, st, env, path, cond, body, n),
        ),
    decreases d, 1int, n,
{
    broadcast use wellformed::lemma_steady_trans;

    wellformed::lemma_steady_refl(st);
    if n > 0 {
        lemma_nested_block(p, d, g, st, env, path, body);
        if let Some((st1, env1, Flow::Fallthrough)) = semantics::nested_block(
            p,
            d,
            st,
            env,
            path,
            body,
        ) {
            lemma_eval_value(p, d, g, st1, env1, cond);
            if let Some((st2, env2, v)) = semantics::eval_value(p, d, st1, env1, cond) {
                if !semantics::truthy(v) {
                    lemma_until(p, d, g, st2, env2, path, cond, body, (n - 1) as nat);
                }
            }
        }
    }
}

} // verus!
