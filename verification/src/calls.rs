//! Laws of evaluation: lists of expressions, calls of functions and methods,
//! literals and accesses, in terms of the values of the parts.

use vstd::prelude::*;

use crate::ast::{Func, Stmt};
use crate::cells;
use crate::flow;
use crate::grammar;
use crate::laws;
use crate::ops;
use crate::ops::{Op, Rec, State};
use crate::records;
use crate::rewrite::Env;
use crate::semantics;
use crate::semantics::{Flow, Program};
use crate::text;
use crate::value;
use crate::value::Val;
use crate::wellformed;

verus! {

/// Expressions evaluate one behind the other, each where the one before it has
/// ended, with these values and to this end.
pub open spec fn evaluate_to(
    p: Program,
    depth: nat,
    from: (State, Env),
    exprs: Seq<Seq<char>>,
    vals: Seq<Option<Val>>,
    to: (State, Env),
) -> bool
    decreases exprs.len(),
{
    if exprs.len() == 0 {
        vals.len() == 0 && to == from
    } else {
        &&& vals.len() == exprs.len()
        &&& match semantics::eval_value(p, depth, from.0, from.1, exprs[0]) {
            Some((st, env, v)) => v == vals[0] && evaluate_to(
                p,
                depth,
                (st, env),
                exprs.skip(1),
                vals.skip(1),
                to,
            ),
            None => false,
        }
    }
}

/// The values that are there.
pub open spec fn present(vals: Seq<Val>) -> Seq<Option<Val>> {
    vals.map_values(|v: Val| Some(v))
}

proof fn lemma_each(
    p: Program,
    depth: nat,
    from: (State, Env),
    args: Seq<Seq<char>>,
    i: int,
    vals: Seq<Option<Val>>,
    to: (State, Env),
    done: Seq<Option<Val>>,
)
    requires
        0 <= i <= args.len(),
        evaluate_to(p, depth, from, args.skip(i), vals, to),
    ensures
        semantics::eval_each(p, depth, from.0, from.1, args, i, done) == Some(
            (to.0, to.1, done + vals),
        ),
    decreases args.len() - i,
{
    let rest = args.skip(i);
    if i < args.len() {
        assert(rest[0] == args[i]);
        assert(rest.skip(1) =~= args.skip(i + 1));
        let (st, env, v) = semantics::eval_value(p, depth, from.0, from.1, args[i])->0;
        lemma_each(p, depth, (st, env), args, i + 1, vals.skip(1), to, done.push(v));
        assert(done.push(v) + vals.skip(1) =~= done + vals);
    } else {
        assert(done + vals =~= done);
    }
}

proof fn lemma_list(
    p: Program,
    depth: nat,
    from: (State, Env),
    args: Seq<Seq<char>>,
    i: int,
    vals: Seq<Val>,
    to: (State, Env),
    done: Seq<Val>,
)
    requires
        0 <= i <= args.len(),
        evaluate_to(p, depth, from, args.skip(i), present(vals), to),
    ensures
        semantics::eval_list(p, depth, from.0, from.1, args, i, done) == Some(
            (to.0, to.1, Some(done + vals)),
        ),
    decreases args.len() - i,
{
    let rest = args.skip(i);
    if i < args.len() {
        assert(rest[0] == args[i]);
        assert(rest.skip(1) =~= args.skip(i + 1));
        assert(present(vals).skip(1) =~= present(vals.skip(1)));
        assert(present(vals)[0] == Some(vals[0]));
        let (st, env, v) = semantics::eval_value(p, depth, from.0, from.1, args[i])->0;
        lemma_list(p, depth, (st, env), args, i + 1, vals.skip(1), to, done.push(vals[0]));
        assert(done.push(vals[0]) + vals.skip(1) =~= done + vals);
    } else {
        assert(done + vals =~= done);
    }
}

proof fn lemma_list_stops(
    p: Program,
    depth: nat,
    from: (State, Env),
    args: Seq<Seq<char>>,
    i: int,
    n: int,
    vals: Seq<Val>,
    to: (State, Env),
    end: (State, Env),
    done: Seq<Val>,
)
    requires
        0 <= i <= n < args.len(),
        evaluate_to(p, depth, from, args.subrange(i, n), present(vals), to),
        semantics::eval_value(p, depth, to.0, to.1, args[n]) == Some((end.0, end.1, None::<Val>)),
    ensures
        semantics::eval_list(p, depth, from.0, from.1, args, i, done) == Some(
            (end.0, end.1, None::<Seq<Val>>),
        ),
    decreases n - i,
{
    let rest = args.subrange(i, n);
    if i < n {
        assert(rest[0] == args[i]);
        assert(rest.skip(1) =~= args.subrange(i + 1, n));
        assert(present(vals).skip(1) =~= present(vals.skip(1)));
        assert(present(vals)[0] == Some(vals[0]));
        let (st, env, v) = semantics::eval_value(p, depth, from.0, from.1, args[i])->0;
        lemma_list_stops(
            p,
            depth,
            (st, env),
            args,
            i + 1,
            n,
            vals.skip(1),
            to,
            end,
            done.push(vals[0]),
        );
    }
}

/// A list of expressions has the list of their values, in order and each once,
/// evaluated from left to right; it has none if one of them has none, and
/// nothing behind that one is evaluated.
pub proof fn law_list_has_its_values(
    p: Program,
    depth: nat,
    from: (State, Env),
    args: Seq<Seq<char>>,
    vals: Seq<Val>,
    to: (State, Env),
    others: Seq<Option<Val>>,
)
    ensures
        evaluate_to(p, depth, from, args, others, to) ==> semantics::eval_each(
            p,
            depth,
            from.0,
            from.1,
            args,
            0,
            Seq::empty(),
        ) == Some((to.0, to.1, others)),
        evaluate_to(p, depth, from, args, present(vals), to) ==> semantics::eval_list(
            p,
            depth,
            from.0,
            from.1,
            args,
            0,
            Seq::empty(),
        ) == Some((to.0, to.1, Some(vals))),
        forall|n: int, end: (State, Env)|
            0 <= n < args.len() && evaluate_to(p, depth, from, args.take(n), present(vals), to)
                && semantics::eval_value(p, depth, to.0, to.1, args[n]) == Some(
                (end.0, end.1, None::<Val>),
            ) ==> #[trigger] stops_there(p, depth, from, args, n, end),
{
    assert(args.skip(0) =~= args);
    if evaluate_to(p, depth, from, args, others, to) {
        lemma_each(p, depth, from, args, 0, others, to, Seq::empty());
        assert(Seq::<Option<Val>>::empty() + others =~= others);
    }
    if evaluate_to(p, depth, from, args, present(vals), to) {
        lemma_list(p, depth, from, args, 0, vals, to, Seq::empty());
        assert(Seq::<Val>::empty() + vals =~= vals);
    }
    assert forall|n: int, end: (State, Env)|
        0 <= n < args.len() && evaluate_to(p, depth, from, args.take(n), present(vals), to)
            && semantics::eval_value(p, depth, to.0, to.1, args[n]) == Some(
            (end.0, end.1, None::<Val>),
        ) implies #[trigger] stops_there(p, depth, from, args, n, end) by {
        assert(args.subrange(0, n) =~= args.take(n));
        lemma_list_stops(p, depth, from, args, 0, n, vals, to, end, Seq::empty());
    }
}

/// The list has no value, and its evaluation ended here.
pub open spec fn stops_there(
    p: Program,
    depth: nat,
    from: (State, Env),
    args: Seq<Seq<char>>,
    n: int,
    end: (State, Env),
) -> bool {
    semantics::eval_list(p, depth, from.0, from.1, args, 0, Seq::empty()) == Some(
        (end.0, end.1, None::<Seq<Val>>),
    )
}

/// The expressions of some fields.
pub open spec fn field_exprs(fields: Seq<(Seq<char>, Seq<char>)>) -> Seq<Seq<char>> {
    fields.map_values(|f: (Seq<char>, Seq<char>)| f.1)
}

/// Fields with these names and values.
pub open spec fn with_values(fields: Seq<(Seq<char>, Seq<char>)>, vals: Seq<Val>) -> Seq<
    (Seq<char>, Val),
> {
    Seq::new(vals.len(), |i: int| (fields[i].0, vals[i]))
}

pub proof fn lemma_fields(
    p: Program,
    depth: nat,
    from: (State, Env),
    fields: Seq<(Seq<char>, Seq<char>)>,
    i: int,
    vals: Seq<Val>,
    to: (State, Env),
    done: Seq<(Seq<char>, Val)>,
)
    requires
        0 <= i <= fields.len(),
        evaluate_to(p, depth, from, field_exprs(fields).skip(i), present(vals), to),
    ensures
        semantics::eval_fields(p, depth, from.0, from.1, fields, i, done) == Some(
            (to.0, to.1, Some(done + with_values(fields.skip(i), vals))),
        ),
    decreases fields.len() - i,
{
    let rest = field_exprs(fields).skip(i);
    let all = with_values(fields.skip(i), vals);
    if i < fields.len() {
        assert(rest[0] == fields[i].1);
        assert(rest.skip(1) =~= field_exprs(fields).skip(i + 1));
        assert(present(vals).skip(1) =~= present(vals.skip(1)));
        assert(present(vals)[0] == Some(vals[0]));
        let (st, env, v) = semantics::eval_value(p, depth, from.0, from.1, fields[i].1)->0;
        let next = done.push((fields[i].0, vals[0]));
        lemma_fields(p, depth, (st, env), fields, i + 1, vals.skip(1), to, next);
        assert(next + with_values(fields.skip(i + 1), vals.skip(1)) =~= done + all);
    } else {
        assert(done + all =~= done);
    }
}

/// The arguments of a method call that have values already are passed on.
proof fn lemma_complete(
    p: Program,
    depth: nat,
    st: State,
    env: Env,
    args: Seq<Seq<char>>,
    vals: Seq<Val>,
    i: int,
    done: Seq<Val>,
)
    requires
        0 <= i <= args.len(),
        vals.len() == args.len(),
    ensures
        semantics::complete_args(p, depth, st, env, args, present(vals), i, done) == Some(
            (st, env, Some(done + vals.skip(i))),
        ),
    decreases args.len() - i,
{
    if i < args.len() {
        assert(present(vals)[i] == Some(vals[i]));
        lemma_complete(p, depth, st, env, args, vals, i + 1, done.push(vals[i]));
        assert(done.push(vals[i]) + vals.skip(i + 1) =~= done + vals.skip(i));
    } else {
        assert(done + vals.skip(i) =~= done);
    }
}

/// A method of builders, cells and slices.
pub open spec fn built_in(method: Seq<char>) -> bool {
    ||| method == "storeInt"@ || method == "storeUint"@ || method == "storeAddress"@
    ||| method == "storeRef"@ || method == "storeMaybeRef"@ || method == "storeSlice"@
    ||| method == "endCell"@ || method == "beginParse"@
    ||| method == "loadInt"@ || method == "loadUint"@ || method == "loadAddress"@
    ||| method == "loadRef"@ || method == "loadMaybeRef"@
}

/// The function at this index is the last of its name.
pub open spec fn defined(funcs: Seq<Func>, i: int, name: Seq<char>) -> bool {
    &&& 0 <= i < funcs.len()
    &&& funcs[i].name == name
    &&& forall|j: int| i < j < funcs.len() ==> (#[trigger] funcs[j]).name != name
}

pub proof fn lemma_defined(funcs: Seq<Func>, i: int, name: Seq<char>)
    requires
        defined(funcs, i, name),
    ensures
        semantics::function_named(funcs, name) == Some(i),
{
    let q = semantics::has_name(funcs, name);
    text::lemma_last_below(funcs.len() as int, q);
    assert(q(i));
    if let Some(k) = semantics::function_named(funcs, name) {
        assert(q(k));
        if k > i {
            assert(funcs[k].name != name);
        }
    }
}

proof fn lemma_method(
    p: Program,
    depth: nat,
    st: State,
    env: Env,
    lhs: Seq<char>,
    method: Seq<char>,
    args: Seq<Seq<char>>,
    vals: Seq<Val>,
    ty_name: Seq<char>,
    fields: Seq<(Seq<char>, Val)>,
    i: int,
)
    requires
        !built_in(method),
        vals.len() == args.len(),
        defined(p.funcs, i, ty_name + "."@ + method),
    ensures
        ({
            let base = Val::Struct { ty_name, fields };
            semantics::on_receiver(p, depth, st, env, lhs, method, args, present(vals), base)
                == match semantics::call_function(
                p,
                depth,
                st,
                p.funcs[i],
                false,
                seq![base] + vals,
            ) {
                None => None,
                Some((end, result)) => Some((end, env, result)),
            }
        }),
{
    let base = Val::Struct { ty_name, fields };
    assert(cells::method_outcome(method, base, semantics::first_value(present(vals)))
        == cells::Outcome::Unknown);
    lemma_defined(p.funcs, i, ty_name + "."@ + method);
    lemma_complete(p, depth, st, env, args, vals, 0, seq![base]);
    assert(vals.skip(0) =~= vals);
    assert(semantics::on_receiver(p, depth, st, env, lhs, method, args, present(vals), base)
        == semantics::user_method(p, depth, st, env, method, args, present(vals), base));
}

/// A method call on a struct calls the function of that type and method, the
/// last of its name, with the struct and the values of the arguments, in this
/// order and each once, and has the value that the function returns.
pub proof fn law_method_call_passes_its_arguments(
    p: Program,
    depth: nat,
    st: State,
    env: Env,
    name: Seq<char>,
    method: Seq<char>,
    args: Seq<Seq<char>>,
    vals: Seq<Val>,
    to: (State, Env),
    ty_name: Seq<char>,
    fields: Seq<(Seq<char>, Val)>,
    i: int,
)
    requires
        depth > 0,
        grammar::plain_name(name),
        grammar::plain_name(method),
        !built_in(method),
        forall|k: int| 0 <= k < args.len() ==> grammar::list_item(#[trigger] args[k]),
        evaluate_to(p, depth, (st, env), args, present(vals), to),
        to.1.dom().contains(name),
        to.1[name] == (Val::Struct { ty_name, fields }),
        defined(p.funcs, i, ty_name + "."@ + method),
    ensures
        semantics::ton_call(p, depth, st, env, laws::method_text(name, method, args))
            == match semantics::call_function(
            p,
            depth,
            to.0,
            p.funcs[i],
            false,
            seq![to.1[name]] + vals,
        ) {
            None => None,
            Some((end, result)) => Some((end, to.1, result)),
        },
{
    law_list_has_its_values(p, depth, (st, env), args, vals, to, present(vals));
    laws::law_method_of_a_variable(p, depth, st, env, name, method, args);
    lemma_same_length(p, depth, (st, env), args, present(vals), to);
    lemma_method(p, depth, to.0, to.1, name, method, args, vals, ty_name, fields, i);
}

proof fn lemma_same_length(
    p: Program,
    depth: nat,
    from: (State, Env),
    args: Seq<Seq<char>>,
    vals: Seq<Option<Val>>,
    to: (State, Env),
)
    requires
        evaluate_to(p, depth, from, args, vals, to),
    ensures
        vals.len() == args.len(),
{
}

/// The operations that are no registration of a type.
pub open spec fn without_types(trail: Seq<Op>) -> Seq<Op>
    decreases trail.len(),
{
    if trail.len() == 0 {
        Seq::empty()
    } else if trail.last() is Type {
        without_types(trail.drop_last())
    } else {
        without_types(trail.drop_last()).push(trail.last())
    }
}

proof fn lemma_without(a: Seq<Op>, b: Seq<Op>)
    requires
        wellformed::begins(a, b),
        forall|k: int| a.len() <= k < b.len() ==> (#[trigger] b[k]) is Type,
    ensures
        without_types(b) == without_types(a),
    decreases b.len(),
{
    if b.len() == a.len() {
        assert(b.take(a.len() as int) =~= b);
    } else {
        let less = b.drop_last();
        assert(less.take(a.len() as int) =~= b.take(a.len() as int));
        assert forall|k: int| a.len() <= k < less.len() implies (#[trigger] less[k]) is Type by {
            assert(less[k] == b[k]);
        }
        lemma_without(a, less);
        assert(b[b.len() - 1] is Type);
    }
}

proof fn lemma_registered(a: State, b: State)
    requires
        records::registers(a, b),
    ensures
        without_types(b.ops) == without_types(a.ops),
        b.storage == a.storage,
{
    assert forall|k: int| a.ops.len() <= k < b.ops.len() implies (#[trigger] b.ops[k]) is Type by {
        let j = k - a.ops.len();
        assert(b.ops[a.ops.len() + j] is Type);
    }
    lemma_without(a.ops, b.ops);
}

proof fn lemma_push(trail: Seq<Op>, op: Op)
    requires
        !(op is Type),
    ensures
        without_types(trail.push(op)) == without_types(trail).push(op),
{
    assert(trail.push(op).drop_last() =~= trail);
}

/// The common types are registered.
pub open spec fn ready(st: State) -> bool {
    st.types.contains("int"@) && st.types.contains("Tuple"@)
}

proof fn lemma_ready_on(a: State, b: State)
    requires
        ready(a),
        wellformed::begins(a.types, b.types),
    ensures
        ready(b),
{
    let i = a.types.index_of("int"@);
    let j = a.types.index_of("Tuple"@);
    assert(b.types.take(a.types.len() as int)[i] == b.types[i]);
    assert(b.types.take(a.types.len() as int)[j] == b.types[j]);
}

/// The operations record arguments: one for each parameter from `i` on, in
/// order and under its name, with the value of its argument if it has one.
pub open spec fn records_args(
    types: Seq<Seq<char>>,
    variants: Set<Seq<char>>,
    params: Seq<(Seq<char>, Seq<char>)>,
    args: Seq<Val>,
    i: int,
    trail: Seq<Op>,
) -> bool {
    &&& trail.len() == params.len() - i
    &&& forall|k: int|
        0 <= k < trail.len() ==> match #[trigger] trail[k] {
            Op::Arg { name, value } => {
                &&& name == params[i + k].0
                &&& i + k < args.len() ==> records::shows(types, variants, args[i + k], value)
                &&& i + k >= args.len() ==> value == Rec::Nothing
            },
            _ => false,
        }
}

#[verifier::spinoff_prover]
#[verifier::rlimit(40)]
proof fn lemma_args(
    st: State,
    variants: Set<Seq<char>>,
    params: Seq<(Seq<char>, Seq<char>)>,
    args: Seq<Val>,
    i: int,
) -> (trail: Seq<Op>)
    requires
        ready(st),
        0 <= i <= params.len(),
    ensures
        ({
            let end = semantics::args_recorded(st, variants, params, args, i);
            &&& ready(end)
            &&& wellformed::begins(st.types, end.types)
            &&& end.storage == st.storage
            &&& without_types(end.ops) == without_types(st.ops) + trail
            &&& records_args(end.types, variants, params, args, i, trail)
        }),
    decreases params.len() - i,
{
    if i == params.len() {
        assert(without_types(st.ops) + Seq::<Op>::empty() =~= without_types(st.ops));
        assert(st.types.take(st.types.len() as int) =~= st.types);
        Seq::empty()
    } else {
        let (mid, rec) = if i < args.len() {
            ops::record_of(st, variants, args[i])
        } else {
            (st, Rec::Nothing)
        };
        if i < args.len() {
            records::law_record_shows_its_value(st, variants, args[i]);
            lemma_registered(st, mid);
        } else {
            assert(st.types.take(st.types.len() as int) =~= st.types);
        }
        lemma_ready_on(st, mid);
        let op = Op::Arg { name: params[i].0, value: rec };
        let next = ops::emitted(mid, op);
        lemma_push(mid.ops, op);
        let rest = lemma_args(next, variants, params, args, i + 1);
        let end = semantics::args_recorded(next, variants, params, args, i + 1);
        let trail = seq![op] + rest;
        assert(without_types(st.ops).push(op) + rest =~= without_types(st.ops) + trail);
        assert(end.types.take(st.types.len() as int) =~= end.types.take(
            mid.types.len() as int,
        ).take(st.types.len() as int));
        if i < args.len() {
            records::lemma_shows_on(mid.types, end.types, variants, args[i], rec);
        }
        assert forall|k: int| 0 <= k < trail.len() implies match #[trigger] trail[k] {
            Op::Arg { name, value } => {
                &&& name == params[i + k].0
                &&& i + k < args.len() ==> records::shows(end.types, variants, args[i + k], value)
                &&& i + k >= args.len() ==> value == Rec::Nothing
            },
            _ => false,
        } by {
            if k > 0 {
                assert(trail[k] == rest[k - 1]);
                assert(rest[k - 1] is Arg);
            }
        }
        trail
    }
}

/// A call begins with the function, one argument for each parameter with the
/// value that was passed, and the call itself; only types may be registered in
/// between. The entry point has the function alone.
pub proof fn law_call_records_its_arguments(
    st: State,
    variants: Set<Seq<char>>,
    f: Func,
    args: Seq<Val>,
) -> (trail: Seq<Op>)
    requires
        ready(st),
    ensures
        ({
            let function = Op::Function { name: f.name, path: f.source_path, line: f.line };
            let end = semantics::call_opened(st, variants, f, false, args);
            &&& without_types(end.ops) == without_types(st.ops) + (seq![function] + trail + seq![
                Op::Call,
            ])
            &&& records_args(end.types, variants, f.params, args, 0, trail)
            &&& ready(end)
            &&& end.storage == st.storage
            &&& semantics::call_opened(st, variants, f, true, args) == flow::recorded(st, function)
        }),
{
    let function = Op::Function { name: f.name, path: f.source_path, line: f.line };
    let first = ops::emitted(st, function);
    lemma_push(st.ops, function);
    let trail = lemma_args(first, variants, f.params, args, 0);
    let mid = semantics::args_recorded(first, variants, f.params, args, 0);
    lemma_push(mid.ops, Op::Call);
    let end = semantics::call_opened(st, variants, f, false, args);
    assert(without_types(end.ops) =~= without_types(st.ops) + (seq![function] + trail + seq![
        Op::Call,
    ]));
    trail
}

/// The variables at the beginning of a function: every parameter with an
/// argument has it as its value (the last one of a name), and there are no
/// others.
pub open spec fn bound_to(
    env: Env,
    params: Seq<(Seq<char>, Seq<char>)>,
    args: Seq<Val>,
) -> bool {
    &&& forall|i: int|
        #![trigger params[i]]
        0 <= i < params.len() && i < args.len() && (forall|j: int|
            i < j < params.len() && j < args.len() ==> params[j].0 != params[i].0)
            ==> env.dom().contains(params[i].0) && env[params[i].0] == args[i]
    &&& forall|name: Seq<char>| #[trigger]
        env.dom().contains(name) ==> exists|i: int|
            0 <= i < params.len() && i < args.len() && (#[trigger] params[i]).0 == name
}

proof fn lemma_last_of_name(
    params: Seq<(Seq<char>, Seq<char>)>,
    name: Seq<char>,
    n: int,
    i: int,
) -> (k: int)
    requires
        0 <= i < n <= params.len(),
        params[i].0 == name,
    ensures
        i <= k < n,
        params[k].0 == name,
        forall|j: int| k < j < n ==> params[j].0 != name,
    decreases n - i,
{
    if exists|j: int| i < j < n && params[j].0 == name {
        let j = choose|j: int| i < j < n && params[j].0 == name;
        lemma_last_of_name(params, name, n, j)
    } else {
        i
    }
}

proof fn lemma_bound(
    env: Env,
    params: Seq<(Seq<char>, Seq<char>)>,
    args: Seq<Val>,
)
    requires
        bound_to(env, params, args),
    ensures
        env == semantics::params_bound(params, args, semantics::bound_count(params, args)),
{
    let n = semantics::bound_count(params, args);
    let other = semantics::params_bound(params, args, n);
    laws::law_arguments_bind_parameters(params, args, n);
    assert forall|name: Seq<char>| #[trigger] env.dom().contains(name) == other.dom().contains(name)
        && (env.dom().contains(name) ==> env[name] == other[name]) by {
        if env.dom().contains(name) || other.dom().contains(name) {
            let i = if env.dom().contains(name) {
                choose|i: int| 0 <= i < params.len() && i < args.len() && (#[trigger] params[i]).0
                    == name
            } else {
                choose|i: int| 0 <= i < n && (#[trigger] params[i]).0 == name
            };
            let k = lemma_last_of_name(params, name, n, i);
            assert(forall|j: int|
                k < j < params.len() && j < args.len() ==> params[j].0 != params[k].0);
        }
    }
    assert(env =~= other);
}

/// A call runs the body of the function with its parameters bound to the
/// arguments, has the value that the body returned, and ends with a record of
/// that value, or of none if the body returned none, fell through or aborted.
pub proof fn law_call_returns_what_its_body_returns(
    p: Program,
    depth: nat,
    st: State,
    f: Func,
    args: Seq<Val>,
    env: Env,
)
    requires
        bound_to(env, f.params, args),
    ensures
        ({
            let begin = semantics::call_opened(st, p.variants, f, false, args);
            let out = semantics::call_function(p, depth, st, f, false, args);
            match semantics::exec_block(p, depth, begin, env, f.source_path, f.body, 0) {
                None => out is None,
                Some((mid, _, flow)) => {
                    &&& out is Some
                    &&& (out->0).1 == match flow {
                        Flow::Returned(v) => v,
                        _ => None,
                    }
                    &&& (out->0).1 is None ==> (out->0).0 == flow::recorded(
                        mid,
                        Op::Return { value: Rec::Nothing },
                    )
                    &&& ready(mid) && (out->0).1 is Some ==> {
                        let end = (out->0).0;
                        &&& end.ops.len() > 0
                        &&& end.storage == mid.storage
                        &&& without_types(end.ops) == without_types(mid.ops).push(end.ops.last())
                        &&& end.ops.last() matches Op::Return { value }
                        &&& records::shows(end.types, p.variants, (out->0).1->0, value)
                    }
                },
            }
        }),
{
    lemma_bound(env, f.params, args);
    let begin = semantics::call_opened(st, p.variants, f, false, args);
    if let Some((mid, _, Flow::Returned(Some(v)))) = semantics::exec_block(
        p,
        depth,
        begin,
        env,
        f.source_path,
        f.body,
        0,
    ) {
        if ready(mid) {
            records::law_record_shows_its_value(mid, p.variants, v);
            let (shown, rec) = ops::record_of(mid, p.variants, v);
            lemma_registered(mid, shown);
            lemma_push(shown.ops, Op::Return { value: rec });
        }
    }
}

/// A binding or an assignment records the name with its value as its last
/// operation, and registers no more than types before it. An integer is shown
/// under its declared type, if there is such a type.
pub proof fn law_binding_records_its_value(
    p: Program,
    depth: nat,
    st: State,
    env: Env,
    path: Seq<char>,
    name: Seq<char>,
    ty_name: Option<Seq<char>>,
    expr: Seq<char>,
    line: u32,
    mid: State,
    vars: Env,
    v: Val,
)
    requires
        semantics::eval_value(p, depth, flow::recorded(st, Op::Step { path, line }), env, expr)
            == Some((mid, vars, Some(v))),
        ready(mid),
    ensures
        ({
            let bound = semantics::exec_stmt(
                p,
                depth,
                st,
                env,
                path,
                Stmt::VarBinding { name, ty_name, expr, line },
            );
            let assigned = semantics::exec_stmt(
                p,
                depth,
                st,
                env,
                path,
                Stmt::Assign { name, expr, line },
            );
            &&& bound is Some && assigned is Some
            &&& shown_last(mid, (assigned->0).0, name)
            &&& shown_last(mid, (bound->0).0, name)
            &&& records::shows(
                (assigned->0).0.types,
                p.variants,
                v,
                (assigned->0).0.ops.last()->Variable_value,
            )
            &&& {
                let rec = (bound->0).0.ops.last()->Variable_value;
                match (flow::declared(ty_name, v), ty_name) {
                    (Val::Int(n), Some(t)) => if mid.types.contains(t) {
                        records::shows_int(mid.types, rec, t, n)
                    } else {
                        records::shows_int(mid.types, rec, "int"@, n)
                    },
                    (w, _) => records::shows((bound->0).0.types, p.variants, w, rec),
                }
            }
        }),
{
    records::law_record_shows_its_value(mid, p.variants, v);
    let (st1, rec1) = ops::record_of(mid, p.variants, v);
    lemma_registered(mid, st1);
    lemma_push(st1.ops, Op::Variable { name, value: rec1 });
    let w = semantics::lifted(ty_name, v);
    assert(w == flow::declared(ty_name, v));
    let (st2, rec2) = semantics::binding_record(mid, p.variants, ty_name, w);
    records::lemma_common(mid.types, "int"@);
    if let Val::Int(n) = w {
        if let Some(t) = ty_name {
            let q = ops::type_named(mid.types, t);
            text::lemma_first_from(0, mid.types.len() as int, q);
            if mid.types.contains(t) {
                records::lemma_common(mid.types, t);
                let k = mid.types.index_of(t);
                assert(q(k));
            } else if let Some(i) = ops::type_number(mid.types, t) {
                assert(q(i));
                assert(mid.types[i] == t);
            }
        }
    } else {
        records::law_record_shows_its_value(mid, p.variants, w);
        lemma_registered(mid, st2);
    }
    lemma_push(st2.ops, Op::Variable { name, value: rec2 });
}

/// The last operation records a variable of this name, and only types were
/// registered before it.
pub open spec fn shown_last(mid: State, end: State, name: Seq<char>) -> bool {
    &&& end.ops.len() > 0
    &&& end.storage == mid.storage
    &&& without_types(end.ops) == without_types(mid.ops).push(end.ops.last())
    &&& end.ops.last() matches Op::Variable { name: n, .. }
    &&& n == name
}

/// Arguments of a method that had no value are evaluated like the arguments of a
/// function: from left to right, up to the first that has none again.
pub proof fn law_missing_arguments_are_evaluated_again(
    p: Program,
    depth: nat,
    st: State,
    env: Env,
    args: Seq<Seq<char>>,
    i: int,
    done: Seq<Val>,
)
    requires
        0 <= i <= args.len(),
    ensures
        semantics::complete_args(p, depth, st, env, args, Seq::empty(), i, done)
            == semantics::eval_list(p, depth, st, env, args, i, done),
    decreases args.len() - i,
{
    if i < args.len() {
        if let Some((mid, vars, Some(v))) = semantics::eval_value(p, depth, st, env, args[i]) {
            law_missing_arguments_are_evaluated_again(
                p,
                depth,
                mid,
                vars,
                args,
                i + 1,
                done.push(v),
            );
        }
    }
}

} // verus!
