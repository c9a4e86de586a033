//! What running a Tolk program records: the meaning of expressions, statements
//! and calls as functions from one state of the recording to the next.
//!
//! Evaluation nests as deeply as the program makes it; `depth` is how many
//! levels may still be opened. Each function gives `None` where that does not
//! suffice, and a greater depth never changes what a smaller one gave.

use vstd::prelude::*;

use crate::ast::{Arm, Func, GateMode, Stmt};
use crate::cells;
use crate::cells::Outcome;
use crate::ops;
use crate::ops::{EventKind, Op, Rec, State};
use crate::rewrite;
use crate::rewrite::Env;
use crate::syntax;
use crate::text;
use crate::tvm;
use crate::value;
use crate::value::Val;

verus! {

/// How often the body of a loop is run at most.
pub const LOOP_ITERATION_BOUND: u32 = 10_000;

/// A parsed program: its functions, and the names that are constructors of
/// unions.
#[verifier::ext_equal]
pub struct Program {
    pub funcs: Seq<Func>,
    pub variants: Set<Seq<char>>,
}

/// How a block of statements ended.
#[verifier::ext_equal]
pub enum Flow {
    /// Behind its last statement.
    Fallthrough,
    /// At a `return`, with its value if that could be evaluated.
    Returned(Option<Val>),
    /// At a failure.
    Aborted,
}

/// The state, the environment and the result after an evaluation.
pub type Out<T> = Option<(State, Env, T)>;

/// "The function at this index has the name."
pub open spec fn has_name(funcs: Seq<Func>, name: Seq<char>) -> spec_fn(int) -> bool {
    |i: int| funcs[i].name == name
}

/// The function of a name, the last one defined.
pub open spec fn function_named(funcs: Seq<Func>, name: Seq<char>) -> Option<int> {
    text::last_below(funcs.len() as int, has_name(funcs, name))
}

/// The function and the arguments of a call of a defined function.
pub open spec fn user_call(funcs: Seq<Func>, x: Seq<char>) -> Option<(int, Seq<Seq<char>>)> {
    match syntax::call_shape(x) {
        Some((name, args)) => match function_named(funcs, name) {
            Some(i) => Some((i, args)),
            None => None,
        },
        None => None,
    }
}

/// An event about the persistent storage.
pub open spec fn storage_event(channel: EventKind, name: Seq<char>, summary: Seq<char>) -> Op {
    Op::Event { channel, metadata: "TolkStorage"@, content: name + ": "@ + summary }
}

/// The value of a context primitive, or the empty builder of `beginCell()`.
pub open spec fn context_value(name: Seq<char>) -> Option<Val> {
    if name == "now"@ {
        Some(Val::Int(1_700_000_000))
    } else if name == "myBalance"@ {
        Some(Val::Coin(2_000_000_000))
    } else if name == "msgSender"@ {
        Some(Val::Address { workchain: 0, hash: 0xCAFE })
    } else if name == "myAddress"@ {
        Some(Val::Address { workchain: 0, hash: 0xBEEF })
    } else if name == "beginCell"@ {
        Some(Val::Builder { payload: Seq::empty(), refs: Seq::empty() })
    } else {
        None
    }
}

/// The integers and references of the stored cell; none before the first store.
pub open spec fn stored_contents(storage: Option<Val>) -> (Seq<i64>, Seq<Seq<i64>>) {
    match storage {
        Some(v) => match cells::contents_of(v) {
            Some(contents) => contents,
            None => (Seq::empty(), Seq::empty()),
        },
        None => (Seq::empty(), Seq::empty()),
    }
}

/// `get_data()` or `load_data()`: the stored cell, with an event.
pub open spec fn data_loaded(st: State, name: Seq<char>) -> (State, Val) {
    let (payload, refs) = stored_contents(st.storage);
    let summary = value::payload_refs_text("Cell"@, payload, refs);
    (
        ops::emitted(st, storage_event(EventKind::Read, name, summary)),
        Val::Cell { payload, refs },
    )
}

/// How an event shows what is stored.
pub open spec fn data_summary(v: Val) -> Seq<char> {
    match v {
        Val::Cell { payload, refs } => value::payload_refs_text("Cell"@, payload, refs),
        Val::Builder { payload, refs } => value::payload_refs_text("Builder"@, payload, refs),
        _ => "<non-cell>"@,
    }
}

/// The cell without contents.
pub open spec fn empty_cell() -> Val {
    Val::Cell { payload: Seq::empty(), refs: Seq::empty() }
}

/// The state after a value was stored, with an event.
pub open spec fn data_stored(st: State, name: Seq<char>, v: Val) -> State {
    State {
        storage: Some(v),
        ..ops::emitted(st, storage_event(EventKind::Write, name, data_summary(v)))
    }
}

/// The environment after a method of a receiver: a variable takes its advanced
/// cursor.
pub open spec fn receiver_advanced(env: Env, lhs: Seq<char>, advanced: Option<Val>) -> Env {
    match advanced {
        Some(next) => if syntax::identifier(lhs) {
            env.insert(lhs, next)
        } else {
            env
        },
        None => env,
    }
}

/// The integer value of an expression on the virtual machine. A failure of the
/// machine is recorded as an event and gives no value.
pub open spec fn machine_value(st: State, env: Env, x: Seq<char>) -> (State, Option<i64>) {
    match tvm::checked_value(x, rewrite::int_env(env)) {
        Ok(Some(n)) => (st, Some(n as i64)),
        Ok(None) => (st, None),
        Err(fault) => (
            ops::emitted(
                st,
                Op::Event {
                    channel: EventKind::Error,
                    metadata: "tvm_exception"@,
                    content: tvm::fault_text(fault),
                },
            ),
            None,
        ),
    }
}

/// A value under the declared type of its variable: an integer becomes an
/// address or a coin.
pub open spec fn lifted(ty: Option<Seq<char>>, v: Val) -> Val {
    match (ty, v) {
        (Some(t), Val::Int(i)) => if t == "address"@ {
            Val::Address { workchain: 0, hash: i }
        } else if t == "coin"@ {
            Val::Coin(i)
        } else {
            v
        },
        _ => v,
    }
}

/// The record of a variable: an integer has its declared type, if that is
/// registered.
pub open spec fn binding_record(
    st: State,
    variants: Set<Seq<char>>,
    ty: Option<Seq<char>>,
    v: Val,
) -> (State, Rec) {
    match v {
        Val::Int(i) => {
            let declared = match ty {
                Some(t) => ops::type_number(st.types, t),
                None => None,
            };
            let type_id = match declared {
                Some(id) => id,
                None => ops::type_or_zero(st.types, "int"@),
            };
            (st, Rec::Int { i, type_id })
        },
        _ => ops::record_of(st, variants, v),
    }
}

/// A variable is bound and recorded.
pub open spec fn variable_set(
    st: State,
    env: Env,
    name: Seq<char>,
    v: Val,
    rec: Rec,
) -> Out<Flow> {
    Some(
        (
            ops::emitted(st, Op::Variable { name, value: rec }),
            env.insert(name, v),
            Flow::Fallthrough,
        ),
    )
}

/// Whether a value counts as true; no value does not.
pub open spec fn truthy(v: Option<Val>) -> bool {
    match v {
        Some(v) => match value::as_int(v) {
            Some(n) => n != 0,
            None => false,
        },
        None => false,
    }
}

/// How often a `repeat` with this count runs.
pub open spec fn repeat_count(v: Option<Val>) -> nat {
    let n = match v {
        Some(v) => match value::as_int(v) {
            Some(n) => n as int,
            None => 0,
        },
        None => 0,
    };
    if n <= 0 {
        0
    } else if n > LOOP_ITERATION_BOUND {
        LOOP_ITERATION_BOUND as nat
    } else {
        n as nat
    }
}

/// A gated throw trips.
pub open spec fn trips(mode: GateMode, cond: bool) -> bool {
    match mode {
        GateMode::If => cond,
        GateMode::Unless => !cond,
    }
}

/// The keyword of a gated throw.
pub open spec fn gate_label(mode: GateMode) -> Seq<char> {
    match mode {
        GateMode::If => "throwIf"@,
        GateMode::Unless => "throwUnless"@,
    }
}

/// An error event of a failing statement.
pub open spec fn failure_event(metadata: Seq<char>, content: Seq<char>) -> Op {
    Op::Event { channel: EventKind::Error, metadata, content }
}

/// "The arm at this index has the constructor."
pub open spec fn arm_for(arms: Seq<Arm>, tag: Seq<char>) -> spec_fn(int) -> bool {
    |i: int| arms[i].constructor == tag
}

/// The first arm of a `match` for a tag.
pub open spec fn chosen_arm(arms: Seq<Arm>, tag: Seq<char>) -> Option<int> {
    text::first_from(0, arms.len() as int, arm_for(arms, tag))
}

/// The environment of an arm: the binder of the arm is the first field.
pub open spec fn arm_env(env: Env, arm: Arm, fields: Seq<(Seq<char>, Val)>) -> Env {
    match arm.payload_binding {
        Some(binder) => if fields.len() > 0 {
            env.insert(binder, fields[0].1)
        } else {
            env
        },
        None => env,
    }
}

/// The environment behind an arm: the binder of the arm is again what it was
/// before.
pub open spec fn arm_left(
    before: Env,
    after: Env,
    arm: Arm,
    fields: Seq<(Seq<char>, Val)>,
) -> Env {
    match arm.payload_binding {
        Some(binder) => if fields.len() == 0 {
            after
        } else if before.dom().contains(binder) {
            after.insert(binder, before[binder])
        } else {
            after.remove(binder)
        },
        None => after,
    }
}

/// The arguments of a call are recorded, from parameter `i` on; a parameter
/// without an argument is recorded without a value.
pub open spec fn args_recorded(
    st: State,
    variants: Set<Seq<char>>,
    params: Seq<(Seq<char>, Seq<char>)>,
    args: Seq<Val>,
    i: int,
) -> State
    decreases params.len() - i,
{
    if i >= params.len() {
        st
    } else {
        let (st, rec) = if i < args.len() {
            ops::record_of(st, variants, args[i])
        } else {
            (st, Rec::Nothing)
        };
        args_recorded(
            ops::emitted(st, Op::Arg { name: params[i].0, value: rec }),
            variants,
            params,
            args,
            i + 1,
        )
    }
}

/// The environment of a call: the first `n` parameters with their arguments.
pub open spec fn params_bound(
    params: Seq<(Seq<char>, Seq<char>)>,
    args: Seq<Val>,
    n: int,
) -> Env
    decreases n,
{
    if n <= 0 {
        Map::empty()
    } else {
        params_bound(params, args, n - 1).insert(params[n - 1].0, args[n - 1])
    }
}

/// The number of parameters that have an argument.
pub open spec fn bound_count(params: Seq<(Seq<char>, Seq<char>)>, args: Seq<Val>) -> int {
    if params.len() <= args.len() {
        params.len() as int
    } else {
        args.len() as int
    }
}

/// The state in which the body of a function begins: the function is
/// registered and, unless it is the entry point, its call recorded.
pub open spec fn call_opened(
    st: State,
    variants: Set<Seq<char>>,
    f: Func,
    entry: bool,
    args: Seq<Val>,
) -> State {
    let st = ops::emitted(
        st,
        Op::Function { name: f.name, path: f.source_path, line: f.line },
    );
    if entry {
        st
    } else {
        ops::emitted(args_recorded(st, variants, f.params, args, 0), Op::Call)
    }
}

/// The state behind a function: unless it is the entry point, its return is
/// recorded.
pub open spec fn call_closed(
    st: State,
    variants: Set<Seq<char>>,
    entry: bool,
    result: Option<Val>,
) -> State {
    if entry {
        st
    } else {
        match result {
            Some(v) => {
                let (st, rec) = ops::record_of(st, variants, v);
                ops::emitted(st, Op::Return { value: rec })
            },
            None => ops::emitted(st, Op::Return { value: Rec::Nothing }),
        }
    }
}

/// What a function returns when its body ended this way.
pub open spec fn returned(flow: Flow) -> Option<Val> {
    match flow {
        Flow::Returned(v) => v,
        _ => None,
    }
}

/// The value of an expression: of the first of these shapes that it has.
/// A literal slice; a call of the machine's context, the storage or a method;
/// a struct or tuple literal; a variable; a field; a call of a function; and
/// otherwise integer arithmetic.
pub open spec fn eval_value(
    p: Program,
    depth: nat,
    st: State,
    env: Env,
    e: Seq<char>,
) -> Out<Option<Val>>
    decreases depth, 0int, 0int,
{
    let x = text::trimmed(rewrite::casts_dropped(e, 0));
    if depth == 0 {
        None
    } else if x.len() == 0 {
        Some((st, env, None))
    } else if syntax::slice_shape(x) is Some {
        Some((st, env, syntax::slice_shape(x)))
    } else {
        match ton_call(p, (depth - 1) as nat, st, env, x) {
            None => None,
            Some((st, env, Some(v))) => Some((st, env, Some(v))),
            Some((st, env, None)) => eval_literal(p, (depth - 1) as nat, st, env, x),
        }
    }
}

/// The value of a call of the context, the storage or a method.
pub open spec fn ton_call(
    p: Program,
    depth: nat,
    st: State,
    env: Env,
    x: Seq<char>,
) -> Out<Option<Val>>
    decreases depth, 10int, 0int,
{
    match syntax::call_shape(x) {
        Some((name, args)) => if args.len() == 0 && context_value(name) is Some {
            Some((st, env, context_value(name)))
        } else if args.len() == 0 && (name == "get_data"@ || name == "load_data"@) {
            let (st, cell) = data_loaded(st, name);
            Some((st, env, Some(cell)))
        } else if args.len() == 1 && (name == "set_data"@ || name == "save_data"@) {
            store_data(p, depth, st, env, name, args[0])
        } else {
            method_call(p, depth, st, env, x)
        },
        None => method_call(p, depth, st, env, x),
    }
}

/// `set_data(arg)` or `save_data(arg)`; its own value is the empty cell.
pub open spec fn store_data(
    p: Program,
    depth: nat,
    st: State,
    env: Env,
    name: Seq<char>,
    arg: Seq<char>,
) -> Out<Option<Val>>
    decreases depth, 9int, 0int,
{
    match eval_value(p, depth, st, env, arg) {
        None => None,
        Some((st, env, Some(v))) => Some((data_stored(st, name, v), env, Some(empty_cell()))),
        Some((st, env, None)) => Some((st, env, Some(empty_cell()))),
    }
}

/// The value of a method call: the arguments are evaluated before the
/// receiver.
pub open spec fn method_call(
    p: Program,
    depth: nat,
    st: State,
    env: Env,
    x: Seq<char>,
) -> Out<Option<Val>>
    decreases depth, 9int, 0int,
{
    match syntax::method_shape(x) {
        None => Some((st, env, None)),
        Some((lhs, method, args)) => match eval_each(p, depth, st, env, args, 0, Seq::empty()) {
            None => None,
            Some((st, env, values)) => match eval_value(p, depth, st, env, lhs) {
                None => None,
                Some((st, env, None)) => Some((st, env, None)),
                Some((st, env, Some(base))) => on_receiver(
                    p,
                    depth,
                    st,
                    env,
                    lhs,
                    method,
                    args,
                    values,
                    base,
                ),
            },
        },
    }
}

/// The first of the optional values, if there is one.
pub open spec fn first_value(values: Seq<Option<Val>>) -> Option<Val> {
    if values.len() > 0 {
        values[0]
    } else {
        None
    }
}

/// The value of a method on an evaluated receiver.
pub open spec fn on_receiver(
    p: Program,
    depth: nat,
    st: State,
    env: Env,
    lhs: Seq<char>,
    method: Seq<char>,
    args: Seq<Seq<char>>,
    values: Seq<Option<Val>>,
    base: Val,
) -> Out<Option<Val>>
    decreases depth, 8int, 0int,
{
    match cells::method_outcome(method, base, first_value(values)) {
        Outcome::Refused => Some((st, env, None)),
        Outcome::Done { result, advanced } => Some(
            (st, receiver_advanced(env, lhs, advanced), Some(result)),
        ),
        Outcome::Unknown => user_method(p, depth, st, env, method, args, values, base),
    }
}

/// The value of a method of a struct: the function `Type.method` with the
/// struct as its first argument.
pub open spec fn user_method(
    p: Program,
    depth: nat,
    st: State,
    env: Env,
    method: Seq<char>,
    args: Seq<Seq<char>>,
    values: Seq<Option<Val>>,
    base: Val,
) -> Out<Option<Val>>
    decreases depth, 7int, 0int,
{
    match base {
        Val::Struct { ty_name, .. } => match function_named(p.funcs, ty_name + "."@ + method) {
            None => Some((st, env, None)),
            Some(i) => match complete_args(p, depth, st, env, args, values, 0, seq![base]) {
                None => None,
                Some((st, env, None)) => Some((st, env, None)),
                Some((st, env, Some(all))) => match call_function(
                    p,
                    depth,
                    st,
                    p.funcs[i],
                    false,
                    all,
                ) {
                    None => None,
                    Some((st, result)) => Some((st, env, result)),
                },
            },
        },
        _ => Some((st, env, None)),
    }
}

/// The values of the arguments from `i` on behind `done`, each evaluated
/// whether or not another has a value.
pub open spec fn eval_each(
    p: Program,
    depth: nat,
    st: State,
    env: Env,
    args: Seq<Seq<char>>,
    i: int,
    done: Seq<Option<Val>>,
) -> Out<Seq<Option<Val>>>
    decreases depth, 1int, args.len() - i,
{
    if i >= args.len() {
        Some((st, env, done))
    } else {
        match eval_value(p, depth, st, env, args[i]) {
            None => None,
            Some((st, env, v)) => eval_each(p, depth, st, env, args, i + 1, done.push(v)),
        }
    }
}

/// The values of the arguments from `i` on behind `done`; the first argument
/// without a value ends the list.
pub open spec fn eval_list(
    p: Program,
    depth: nat,
    st: State,
    env: Env,
    args: Seq<Seq<char>>,
    i: int,
    done: Seq<Val>,
) -> Out<Option<Seq<Val>>>
    decreases depth, 1int, args.len() - i,
{
    if i >= args.len() {
        Some((st, env, Some(done)))
    } else {
        match eval_value(p, depth, st, env, args[i]) {
            None => None,
            Some((st, env, None)) => Some((st, env, None)),
            Some((st, env, Some(v))) => eval_list(p, depth, st, env, args, i + 1, done.push(v)),
        }
    }
}

/// The values of the fields from `i` on behind `done`; the first field
/// without a value ends the list.
pub open spec fn eval_fields(
    p: Program,
    depth: nat,
    st: State,
    env: Env,
    fields: Seq<(Seq<char>, Seq<char>)>,
    i: int,
    done: Seq<(Seq<char>, Val)>,
) -> Out<Option<Seq<(Seq<char>, Val)>>>
    decreases depth, 1int, fields.len() - i,
{
    if i >= fields.len() {
        Some((st, env, Some(done)))
    } else {
        match eval_value(p, depth, st, env, fields[i].1) {
            None => None,
            Some((st, env, None)) => Some((st, env, None)),
            Some((st, env, Some(v))) => eval_fields(
                p,
                depth,
                st,
                env,
                fields,
                i + 1,
                done.push((fields[i].0, v)),
            ),
        }
    }
}

/// The arguments of a method from `i` on behind `done`: the values that are
/// there, and the others evaluated once more.
pub open spec fn complete_args(
    p: Program,
    depth: nat,
    st: State,
    env: Env,
    args: Seq<Seq<char>>,
    values: Seq<Option<Val>>,
    i: int,
    done: Seq<Val>,
) -> Out<Option<Seq<Val>>>
    decreases depth, 1int, args.len() - i,
{
    if i >= args.len() {
        Some((st, env, Some(done)))
    } else if i < values.len() && values[i] is Some {
        complete_args(p, depth, st, env, args, values, i + 1, done.push(values[i]->0))
    } else {
        match eval_value(p, depth, st, env, args[i]) {
            None => None,
            Some((st, env, None)) => Some((st, env, None)),
            Some((st, env, Some(v))) => complete_args(
                p,
                depth,
                st,
                env,
                args,
                values,
                i + 1,
                done.push(v),
            ),
        }
    }
}

/// The value of a struct literal, a tuple literal or what comes behind them.
pub open spec fn eval_literal(
    p: Program,
    depth: nat,
    st: State,
    env: Env,
    x: Seq<char>,
) -> Out<Option<Val>>
    decreases depth, 9int, 0int,
{
    match syntax::struct_shape(x) {
        Some((ty_name, fields)) => match eval_fields(p, depth, st, env, fields, 0, Seq::empty()) {
            None => None,
            Some((st, env, None)) => Some((st, env, None)),
            Some((st, env, Some(fields))) => Some(
                (st, env, Some(Val::Struct { ty_name, fields })),
            ),
        },
        None => match syntax::tuple_shape(x) {
            Some(parts) => match eval_list(p, depth, st, env, parts, 0, Seq::empty()) {
                None => None,
                Some((st, env, None)) => Some((st, env, None)),
                Some((st, env, Some(elements))) => Some((st, env, Some(Val::Tuple(elements)))),
            },
            None => eval_access(p, depth, st, env, x),
        },
    }
}

/// The value of a variable, a field or what comes behind them.
pub open spec fn eval_access(
    p: Program,
    depth: nat,
    st: State,
    env: Env,
    x: Seq<char>,
) -> Out<Option<Val>>
    decreases depth, 8int, 0int,
{
    if syntax::identifier(x) && env.dom().contains(x) {
        Some((st, env, Some(env[x])))
    } else {
        match syntax::dot_shape(x) {
            None => eval_call(p, depth, st, env, x),
            Some((lhs, field)) => match eval_value(p, depth, st, env, lhs) {
                None => None,
                Some((st, env, None)) => eval_call(p, depth, st, env, x),
                Some((st, env, Some(base))) => match rewrite::projected(base, field) {
                    Some(v) => Some((st, env, Some(v))),
                    None => eval_call(p, depth, st, env, x),
                },
            },
        }
    }
}

/// The value of a call of a function, or of integer arithmetic.
pub open spec fn eval_call(
    p: Program,
    depth: nat,
    st: State,
    env: Env,
    x: Seq<char>,
) -> Out<Option<Val>>
    decreases depth, 7int, 0int,
{
    match user_call(p.funcs, x) {
        None => eval_fallback(p, depth, st, env, x),
        Some((i, args)) => match eval_list(p, depth, st, env, args, 0, Seq::empty()) {
            None => None,
            Some((st, env, None)) => eval_fallback(p, depth, st, env, x),
            Some((st, env, Some(vals))) => match call_function(
                p,
                depth,
                st,
                p.funcs[i],
                false,
                vals,
            ) {
                None => None,
                Some((st, result)) => Some((st, env, result)),
            },
        },
    }
}

/// The integer value of an expression as a value.
pub open spec fn eval_fallback(
    p: Program,
    depth: nat,
    st: State,
    env: Env,
    x: Seq<char>,
) -> Out<Option<Val>>
    decreases depth, 6int, 0int,
{
    match eval_int(p, depth, st, env, x) {
        None => None,
        Some((st, env, Some(n))) => Some((st, env, Some(Val::Int(n)))),
        Some((st, env, None)) => Some((st, env, None)),
    }
}

/// The integer value of an expression: the accesses to integer fields are
/// resolved first; a call of a function counts if it gives an integer, and
/// everything else goes to the machine.
pub open spec fn eval_int(
    p: Program,
    depth: nat,
    st: State,
    env: Env,
    e: Seq<char>,
) -> Out<Option<i64>>
    decreases depth, 5int, 0int,
{
    let y = text::trimmed(rewrite::casts_dropped(e, 0));
    let x = rewrite::accesses_resolved(y, 0, env);
    if y.len() == 0 {
        Some((st, env, None))
    } else {
        match user_call(p.funcs, x) {
            None => {
                let (st, n) = machine_value(st, env, x);
                Some((st, env, n))
            },
            Some((i, args)) => match eval_list(p, depth, st, env, args, 0, Seq::empty()) {
                None => None,
                Some((st, env, None)) => {
                    let (st, n) = machine_value(st, env, x);
                    Some((st, env, n))
                },
                Some((st, env, Some(vals))) => match call_function(
                    p,
                    depth,
                    st,
                    p.funcs[i],
                    false,
                    vals,
                ) {
                    None => None,
                    Some((st, Some(v))) => Some((st, env, value::as_int(v))),
                    Some((st, None)) => Some((st, env, None)),
                },
            },
        }
    }
}

/// A call of a function with evaluated arguments: the state behind it and what
/// it returns.
pub open spec fn call_function(
    p: Program,
    depth: nat,
    st: State,
    f: Func,
    entry: bool,
    args: Seq<Val>,
) -> Option<(State, Option<Val>)>
    decreases depth, 4int, 0int,
{
    let env = params_bound(f.params, args, bound_count(f.params, args));
    match exec_block(
        p,
        depth,
        call_opened(st, p.variants, f, entry, args),
        env,
        f.source_path,
        f.body,
        0,
    ) {
        None => None,
        Some((st, _, flow)) => Some(
            (call_closed(st, p.variants, entry, returned(flow)), returned(flow)),
        ),
    }
}

/// The statements of a block from `i` on.
pub open spec fn exec_block(
    p: Program,
    depth: nat,
    st: State,
    env: Env,
    path: Seq<char>,
    stmts: Seq<Stmt>,
    i: int,
) -> Out<Flow>
    decreases depth, 3int, stmts.len() - i,
{
    if i >= stmts.len() {
        Some((st, env, Flow::Fallthrough))
    } else {
        match exec_stmt(p, depth, st, env, path, stmts[i]) {
            None => None,
            Some((st, env, Flow::Fallthrough)) => exec_block(p, depth, st, env, path, stmts, i + 1),
            Some(done) => Some(done),
        }
    }
}

/// A block inside a statement, one level deeper.
pub open spec fn nested_block(
    p: Program,
    depth: nat,
    st: State,
    env: Env,
    path: Seq<char>,
    stmts: Seq<Stmt>,
) -> Out<Flow>
    decreases depth, 0int, 0int,
{
    if depth == 0 {
        None
    } else {
        exec_block(p, (depth - 1) as nat, st, env, path, stmts, 0)
    }
}

/// One statement. All but `throw` and `assert` record a step to their line.
pub open spec fn exec_stmt(
    p: Program,
    depth: nat,
    st: State,
    env: Env,
    path: Seq<char>,
    s: Stmt,
) -> Out<Flow>
    decreases depth, 2int, 0int,
{
    match s {
        Stmt::VarBinding { name, ty_name, expr, line } => {
            let st = ops::emitted(st, Op::Step { path, line });
            match eval_value(p, depth, st, env, expr) {
                None => None,
                Some((st, env, None)) => Some((st, env, Flow::Fallthrough)),
                Some((st, env, Some(raw))) => {
                    let v = lifted(ty_name, raw);
                    let (st, rec) = binding_record(st, p.variants, ty_name, v);
                    variable_set(st, env, name, v, rec)
                },
            }
        },
        Stmt::Assign { name, expr, line } => {
            let st = ops::emitted(st, Op::Step { path, line });
            match eval_value(p, depth, st, env, expr) {
                None => None,
                Some((st, env, None)) => Some((st, env, Flow::Fallthrough)),
                Some((st, env, Some(v))) => {
                    let (st, rec) = ops::record_of(st, p.variants, v);
                    variable_set(st, env, name, v, rec)
                },
            }
        },
        Stmt::Return { expr, line } => {
            let st = ops::emitted(st, Op::Step { path, line });
            match eval_value(p, depth, st, env, expr) {
                None => None,
                Some((st, env, v)) => Some((st, env, Flow::Returned(v))),
            }
        },
        Stmt::Throw { .. } | Stmt::Assert { .. } => Some((st, env, Flow::Aborted)),
        Stmt::If { cond, then_block, else_block, line } => {
            let st = ops::emitted(st, Op::Step { path, line });
            match eval_value(p, depth, st, env, cond) {
                None => None,
                Some((st, env, v)) => nested_block(
                    p,
                    depth,
                    st,
                    env,
                    path,
                    if truthy(v) {
                        then_block
                    } else {
                        else_block
                    },
                ),
            }
        },
        Stmt::While { cond, body, line } => while_loop(
            p,
            depth,
            ops::emitted(st, Op::Step { path, line }),
            env,
            path,
            cond,
            body,
            LOOP_ITERATION_BOUND as nat,
        ),
        Stmt::Repeat { count_expr, body, line } => {
            let st = ops::emitted(st, Op::Step { path, line });
            match eval_value(p, depth, st, env, count_expr) {
                None => None,
                Some((st, env, v)) => repeat_loop(p, depth, st, env, path, body, repeat_count(v)),
            }
        },
        Stmt::DoUntil { body, cond, line } => until_loop(
            p,
            depth,
            ops::emitted(st, Op::Step { path, line }),
            env,
            path,
            cond,
            body,
            LOOP_ITERATION_BOUND as nat,
        ),
        Stmt::ExprStatement { expr, line } => {
            let st = ops::emitted(st, Op::Step { path, line });
            match eval_value(p, depth, st, env, expr) {
                None => None,
                Some((st, env, _)) => Some((st, env, Flow::Fallthrough)),
            }
        },
        Stmt::GatedThrow { code, condition, mode, line } => {
            let st = ops::emitted(st, Op::Step { path, line });
            match eval_value(p, depth, st, env, condition) {
                None => None,
                Some((st, env, v)) => if trips(mode, truthy(v)) {
                    let content = gate_label(mode) + ": code "@ + code;
                    Some(
                        (
                            ops::emitted(st, failure_event("TolkThrow"@, content)),
                            env,
                            Flow::Aborted,
                        ),
                    )
                } else {
                    Some((st, env, Flow::Fallthrough))
                },
            }
        },
        Stmt::Match { scrutinee, arms, line } => {
            let st = ops::emitted(st, Op::Step { path, line });
            match eval_value(p, depth, st, env, scrutinee) {
                None => None,
                Some((st, env, Some(Val::Struct { ty_name, fields }))) => match chosen_arm(
                    arms,
                    ty_name,
                ) {
                    Some(i) => match nested_block(
                        p,
                        depth,
                        st,
                        arm_env(env, arms[i], fields),
                        path,
                        arms[i].body,
                    ) {
                        None => None,
                        Some((st, inner, flow)) => Some(
                            (st, arm_left(env, inner, arms[i], fields), flow),
                        ),
                    },
                    None => Some((st, env, Flow::Fallthrough)),
                },
                Some((st, env, _)) => Some((st, env, Flow::Fallthrough)),
            }
        },
    }
}

/// A `while` loop with at most `n` more rounds.
pub open spec fn while_loop(
    p: Program,
    depth: nat,
    st: State,
    env: Env,
    path: Seq<char>,
    cond: Seq<char>,
    body: Seq<Stmt>,
    n: nat,
) -> Out<Flow>
    decreases depth, 1int, n,
{
    if n == 0 {
        Some((st, env, Flow::Fallthrough))
    } else {
        match eval_value(p, depth, st, env, cond) {
            None => None,
            Some((st, env, v)) => if truthy(v) {
                match nested_block(p, depth, st, env, path, body) {
                    None => None,
                    Some((st, env, Flow::Fallthrough)) => while_loop(
                        p,
                        depth,
                        st,
                        env,
                        path,
                        cond,
                        body,
                        (n - 1) as nat,
                    ),
                    Some(done) => Some(done),
                }
            } else {
                Some((st, env, Flow::Fallthrough))
            },
        }
    }
}

/// A `repeat` loop with `n` more rounds.
pub open spec fn repeat_loop(
    p: Program,
    depth: nat,
    st: State,
    env: Env,
    path: Seq<char>,
    body: Seq<Stmt>,
    n: nat,
) -> Out<Flow>
    decreases depth, 1int, n,
{
    if n == 0 {
        Some((st, env, Flow::Fallthrough))
    } else {
        match nested_block(p, depth, st, env, path, body) {
            None => None,
            Some((st, env, Flow::Fallthrough)) => repeat_loop(
                p,
                depth,
                st,
                env,
                path,
                body,
                (n - 1) as nat,
            ),
            Some(done) => Some(done),
        }
    }
}

/// A `do` loop with at most `n` more rounds, the condition tested behind each.
pub open spec fn until_loop(
    p: Program,
    depth: nat,
    st: State,
    env: Env,
    path: Seq<char>,
    cond: Seq<char>,
    body: Seq<Stmt>,
    n: nat,
) -> Out<Flow>
    decreases depth, 1int, n,
{
    if n == 0 {
        Some((st, env, Flow::Fallthrough))
    } else {
        match nested_block(p, depth, st, env, path, body) {
            None => None,
            Some((st, env, Flow::Fallthrough)) => match eval_value(p, depth, st, env, cond) {
                None => None,
                Some((st, env, v)) => if truthy(v) {
                    Some((st, env, Flow::Fallthrough))
                } else {
                    until_loop(p, depth, st, env, path, cond, body, (n - 1) as nat)
                },
            },
            Some(done) => Some(done),
        }
    }
}

} // verus!
