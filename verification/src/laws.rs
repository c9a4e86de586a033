//! Laws of recordings as a whole.

use vstd::prelude::*;

use crate::ast::{Arm, Func, GateMode, Stmt};
use crate::brackets;
use crate::cells;
use crate::cells::{Load, Store};
use crate::chars;
use crate::grammar;
use crate::nesting;
use crate::numeral;
use crate::ops;
use crate::ops::{EventKind, Op, Rec, State, TypeKind};
use crate::rewrite;
use crate::rewrite::Env;
use crate::semantics;
use crate::semantics::{Flow, Program};
use crate::syntax;
use crate::text;
use crate::tracer;
use crate::tracer::TraceError;
use crate::value;
use crate::value::{SliceEncoding, Val};
use crate::wellformed;

verus! {

proof fn lemma_messages(
    p: Program,
    d: nat,
    g: nat,
    st: State,
    f: Func,
    codes: Seq<i64>,
    i: int,
    first: bool,
)
    requires
        d <= g,
        tracer::messages_taken(p, d, st, f, codes, i, first) is Some,
    ensures
        tracer::messages_taken(p, g, st, f, codes, i, first) == tracer::messages_taken(
            p,
            d,
            st,
            f,
            codes,
            i,
            first,
        ),
        wellformed::steady(st, tracer::messages_taken(p, d, st, f, codes, i, first)->0),
    decreases codes.len() - i,
{
    broadcast use wellformed::lemma_steady_trans;

    wellformed::lemma_steady_refl(st);
    if i < codes.len() {
        let args = tracer::entry_args(f.params, Some(codes[i]));
        let entry = first && i == 0;
        nesting::lemma_call_function(p, d, g, st, f, entry, args);
        if let Some((st1, _)) = semantics::call_function(p, d, st, f, entry, args) {
            lemma_messages(p, d, g, st1, f, codes, i + 1, first);
        }
    }
}

proof fn lemma_hook(
    p: Program,
    d: nat,
    g: nat,
    st: State,
    name: Seq<char>,
    codes: Option<Seq<i64>>,
    first: bool,
)
    requires
        d <= g,
        tracer::hook_run(p, d, st, name, codes, first) is Some,
    ensures
        tracer::hook_run(p, g, st, name, codes, first) == tracer::hook_run(
            p,
            d,
            st,
            name,
            codes,
            first,
        ),
        wellformed::steady(st, tracer::hook_run(p, d, st, name, codes, first)->0),
{
    wellformed::lemma_steady_refl(st);
    if let Some(i) = semantics::function_named(p.funcs, name) {
        let f = p.funcs[i];
        if codes is Some && codes->0.len() > 0 {
            lemma_messages(p, d, g, st, f, codes->0, 0, first);
        } else {
            nesting::lemma_call_function(
                p,
                d,
                g,
                st,
                f,
                first,
                tracer::entry_args(f.params, None),
            );
        }
    }
}

proof fn lemma_program(p: Program, d: nat, g: nat, st: State, codes: Option<Seq<i64>>)
    requires
        d <= g,
        tracer::program_run(p, d, st, codes) is Ok,
    ensures
        tracer::program_run(p, g, st, codes) == tracer::program_run(p, d, st, codes),
        wellformed::steady(st, tracer::program_run(p, d, st, codes)->Ok_0),
{
    broadcast use wellformed::lemma_steady_trans;

    reveal(tracer::program_run);
    let internal = semantics::function_named(p.funcs, "onInternalMessage"@) is Some;
    match semantics::function_named(p.funcs, "main"@) {
        Some(i) => {
            nesting::lemma_call_function(p, d, g, st, p.funcs[i], true, Seq::empty());
        },
        None => {
            lemma_hook(p, d, g, st, "onInternalMessage"@, codes, true);
            let mid = tracer::hook_run(p, d, st, "onInternalMessage"@, codes, true)->0;
            lemma_hook(p, d, g, mid, "onExternalMessage"@, None, !internal);
        },
    }
}

/// A trace does not depend on how deeply evaluation may nest: where a depth
/// suffices, every greater one gives the same trace, and whether there is an
/// entry point does not depend on it at all.
pub proof fn law_depth_keeps_trace(p: Program, d: nat, g: nat, codes: Option<Seq<i64>>)
    requires
        d <= g,
        tracer::trace_of(p, d, codes) != Err::<Seq<Op>, TraceError>(TraceError::TooDeep),
    ensures
        tracer::trace_of(p, g, codes) == tracer::trace_of(p, d, codes),
{
    let st = tracer::initial_state();
    if tracer::program_run(p, d, st, codes) is Ok {
        lemma_program(p, d, g, st, codes);
    } else {
        reveal(tracer::program_run);
    }
}

/// More operations that are events.
proof fn lemma_events(st: State, more: Seq<Op>)
    requires
        forall|i: int| 0 <= i < more.len() ==> #[trigger] more[i] is Event,
    ensures
        wellformed::steady(st, tracer::extended(st, more)),
    decreases more.len(),
{
    wellformed::lemma_steady_refl(st);
    let next = tracer::extended(st, more);
    if more.len() == 0 {
        assert(next.ops =~= st.ops);
    } else {
        let less = more.drop_last();
        assert forall|i: int| 0 <= i < less.len() implies #[trigger] less[i] is Event by {
            assert(less[i] == more[i]);
        }
        lemma_events(st, less);
        assert(more[more.len() - 1] is Event);
        wellformed::lemma_steady_emit(st, tracer::extended(st, less), more.last());
        assert(ops::emitted(tracer::extended(st, less), more.last()).ops =~= next.ops);
    }
}

proof fn lemma_stmt_failures(s: Stmt)
    ensures
        forall|i: int|
            0 <= i < tracer::stmt_failures(s).len() ==> #[trigger] tracer::stmt_failures(
                s,
            )[i] is Event,
    decreases s,
{
    match s {
        Stmt::If { then_block, else_block, .. } => {
            lemma_block_failures(then_block);
            lemma_block_failures(else_block);
        },
        Stmt::While { body, .. } => {
            lemma_block_failures(body);
        },
        Stmt::Repeat { body, .. } => {
            lemma_block_failures(body);
        },
        Stmt::DoUntil { body, .. } => {
            lemma_block_failures(body);
        },
        Stmt::Match { arms, .. } => {
            lemma_arms_failures(arms);
        },
        _ => {},
    }
}

proof fn lemma_block_failures(stmts: Seq<Stmt>)
    ensures
        forall|i: int|
            0 <= i < tracer::block_failures(stmts).len() ==> #[trigger] tracer::block_failures(
                stmts,
            )[i] is Event,
    decreases stmts,
{
    if stmts.len() > 0 {
        lemma_block_failures(stmts.drop_last());
        lemma_stmt_failures(stmts.last());
    }
}

proof fn lemma_arms_failures(arms: Seq<Arm>)
    ensures
        forall|i: int|
            0 <= i < tracer::arms_failures(arms).len() ==> #[trigger] tracer::arms_failures(
                arms,
            )[i] is Event,
    decreases arms,
{
    if arms.len() > 0 {
        lemma_arms_failures(arms.drop_last());
        lemma_block_failures(arms.last().body);
    }
}

proof fn lemma_program_failures(funcs: Seq<Func>)
    ensures
        forall|i: int|
            0 <= i < tracer::program_failures(funcs).len() ==> #[trigger] tracer::program_failures(
                funcs,
            )[i] is Event,
    decreases funcs.len(),
{
    if funcs.len() > 0 {
        lemma_program_failures(funcs.drop_last());
        lemma_block_failures(funcs.last().body);
    }
}

/// The common types are well formed.
proof fn lemma_initial_sound()
    ensures
        wellformed::sound(tracer::initial_state()),
        wellformed::open_calls(tracer::initial_state().ops) == 0,
{
    reveal_strlit("int");
    reveal_strlit("bool");
    reveal_strlit("Tuple");
    let st = tracer::initial_state();
    let a = st.ops.take(1);
    let b = st.ops.take(2);
    assert(st.ops.drop_last() =~= b);
    assert(b.drop_last() =~= a);
    assert(a.drop_last() =~= Seq::empty());
    reveal_with_fuel(wellformed::type_names, 4);
    reveal_with_fuel(wellformed::open_calls, 4);
    reveal_with_fuel(wellformed::ids_declared, 4);
    assert(wellformed::type_names(st.ops) =~= st.types);
    assert("int"@.len() == 3 && "bool"@.len() == 4 && "Tuple"@.len() == 5);
}

/// The operations of a recording that is closed.
pub open spec fn closed_well(trace: Seq<Op>) -> bool {
    &&& wellformed::type_names(trace).no_duplicates()
    &&& wellformed::ids_declared(trace)
    &&& trace.len() > 0
    &&& trace.last() == (Op::Return { value: Rec::Nothing })
    &&& wellformed::open_calls(trace.drop_last()) == 0
    &&& forall|k: int|
        0 <= k < trace.len() ==> wellformed::open_calls(#[trigger] trace.take(k)) >= 0
}

proof fn lemma_closing(last: State)
    requires
        wellformed::steady(tracer::initial_state(), last),
    ensures
        closed_well(last.ops.push(Op::Return { value: Rec::Nothing })),
{
    let first = tracer::initial_state();
    let trace = last.ops.push(Op::Return { value: Rec::Nothing });
    lemma_initial_sound();
    wellformed::lemma_steady_sound(first, last);
    assert(trace.drop_last() =~= last.ops);
    assert(wellformed::reaches(first, last, 0)) by {
        reveal(wellformed::steady);
    }
    assert forall|k: int| 0 <= k < trace.len() implies wellformed::open_calls(
        #[trigger] trace.take(k),
    ) >= 0 by {
        assert(trace.take(k) =~= last.ops.take(k));
        if k < 3 {
            assert(last.ops.take(3) =~= first.ops);
            assert(last.ops.take(k) =~= last.ops.take(3).take(k));
            lemma_initial_calls(k);
        }
    }
}

/// A trace is well formed: it registers no type twice and names only types
/// that it has registered before; it ends with the return that closes it; and
/// before that calls and returns nest, each return closing the call opened
/// last, and all of them are closed.
pub proof fn law_trace_is_well_formed(p: Program, depth: nat, codes: Option<Seq<i64>>)
    requires
        tracer::trace_of(p, depth, codes) is Ok,
    ensures
        closed_well(tracer::trace_of(p, depth, codes)->Ok_0),
{
    let first = tracer::initial_state();
    lemma_program(p, depth, depth, first, codes);
    let st = tracer::program_run(p, depth, first, codes)->Ok_0;
    let more = tracer::program_failures(p.funcs);
    lemma_program_failures(p.funcs);
    lemma_events(st, more);
    let last = tracer::extended(st, more);
    wellformed::lemma_steady_trans(first, st, last);
    lemma_closing(last);
}

/// The trace of a program begins with the common types, goes on with what its
/// run records and then the failures of its functions, and ends with a return
/// without a value. Without a run there is no trace.
pub proof fn law_trace_holds_the_run(p: Program, depth: nat, codes: Option<Seq<i64>>)
    ensures
        ({
            let trace = tracer::trace_of(p, depth, codes);
            match tracer::program_run(p, depth, tracer::initial_state(), codes) {
                Err(e) => trace == Err::<Seq<Op>, TraceError>(e),
                Ok(st) => trace matches Ok(t) && {
                    &&& t.len() > st.ops.len() >= 3
                    &&& t[0] == (Op::Type { kind: TypeKind::Int, name: "int"@ })
                    &&& t[1] == (Op::Type { kind: TypeKind::Int, name: "bool"@ })
                    &&& t[2] == (Op::Type { kind: TypeKind::Sequence, name: "Tuple"@ })
                    &&& t.take(st.ops.len() as int) == st.ops
                    &&& t.subrange(st.ops.len() as int, t.len() - 1) == tracer::program_failures(
                        p.funcs,
                    )
                    &&& t.last() == (Op::Return { value: Rec::Nothing })
                },
            }
        }),
{
    let first = tracer::initial_state();
    if let Ok(st) = tracer::program_run(p, depth, first, codes) {
        lemma_program(p, depth, depth, first, codes);
        wellformed::lemma_steady_sound(first, st);
        let t = tracer::trace_of(p, depth, codes)->Ok_0;
        assert(t.take(st.ops.len() as int) =~= st.ops);
        assert(t.subrange(st.ops.len() as int, t.len() - 1) =~= tracer::program_failures(p.funcs));
        assert(st.ops.take(3) =~= first.ops);
        assert(st.ops.take(3)[0] == first.ops[0]);
        assert(st.ops.take(3)[1] == first.ops[1]);
        assert(st.ops.take(3)[2] == first.ops[2]);
    }
}

proof fn lemma_initial_calls(k: int)
    requires
        0 <= k <= 3,
    ensures
        wellformed::open_calls(tracer::initial_state().ops.take(k)) == 0,
    decreases k,
{
    let s = tracer::initial_state().ops.take(k);
    if k > 0 {
        assert(s.drop_last() =~= tracer::initial_state().ops.take(k - 1));
        lemma_initial_calls(k - 1);
    }
}

/// What has been recorded stays: a call only appends operations and types, and
/// leaves as many calls open as it found.
pub proof fn law_recording_only_appends(
    p: Program,
    depth: nat,
    st: State,
    f: Func,
    entry: bool,
    args: Seq<Val>,
)
    requires
        semantics::call_function(p, depth, st, f, entry, args) is Some,
    ensures
        match semantics::call_function(p, depth, st, f, entry, args) {
            Some((next, _)) => {
                &&& wellformed::begins(st.ops, next.ops)
                &&& wellformed::begins(st.types, next.types)
                &&& wellformed::open_calls(next.ops) == wellformed::open_calls(st.ops)
            },
            None => true,
        },
{
    nesting::lemma_call_function(p, depth, depth, st, f, entry, args);
    if let Some((next, _)) = semantics::call_function(p, depth, st, f, entry, args) {
        wellformed::lemma_steady_sound(st, next);
    }
}

proof fn lemma_block_contains(stmts: Seq<Stmt>, j: int, k: int)
    requires
        0 <= j < stmts.len(),
        0 <= k < tracer::stmt_failures(stmts[j]).len(),
    ensures
        tracer::block_failures(stmts).contains(tracer::stmt_failures(stmts[j])[k]),
    decreases stmts.len(),
{
    let less = stmts.drop_last();
    let front = tracer::block_failures(less);
    let back = tracer::stmt_failures(stmts.last());
    let op = tracer::stmt_failures(stmts[j])[k];
    if j == stmts.len() - 1 {
        assert((front + back)[front.len() + k] == op);
    } else {
        lemma_block_contains(less, j, k);
        let i = front.index_of(op);
        assert((front + back)[i] == op);
    }
}

proof fn lemma_program_contains(funcs: Seq<Func>, i: int, op: Op)
    requires
        0 <= i < funcs.len(),
        tracer::block_failures(funcs[i].body).contains(op),
    ensures
        tracer::program_failures(funcs).contains(op),
    decreases funcs.len(),
{
    let front = tracer::program_failures(funcs.drop_last());
    let back = tracer::block_failures(funcs.last().body);
    if i == funcs.len() - 1 {
        let k = back.index_of(op);
        assert((front + back)[front.len() + k] == op);
    } else {
        lemma_program_contains(funcs.drop_last(), i, op);
        let k = front.index_of(op);
        assert((front + back)[k] == op);
    }
}

/// Every `throw` and every `assert` of a program has an error event in its
/// trace, whether or not the statement is ever reached and however deep it is
/// nested: the events of each statement of each function are there.
pub proof fn law_failures_are_recorded(
    p: Program,
    depth: nat,
    codes: Option<Seq<i64>>,
    i: int,
    j: int,
    k: int,
)
    requires
        tracer::trace_of(p, depth, codes) is Ok,
        0 <= i < p.funcs.len(),
        0 <= j < p.funcs[i].body.len(),
        0 <= k < tracer::stmt_failures(p.funcs[i].body[j]).len(),
    ensures
        tracer::trace_of(p, depth, codes)->Ok_0.contains(
            tracer::stmt_failures(p.funcs[i].body[j])[k],
        ),
{
    let op = tracer::stmt_failures(p.funcs[i].body[j])[k];
    lemma_block_contains(p.funcs[i].body, j, k);
    lemma_program_contains(p.funcs, i, op);
    let st = tracer::program_run(p, depth, tracer::initial_state(), codes)->Ok_0;
    let more = tracer::program_failures(p.funcs);
    let n = more.index_of(op);
    let trace = tracer::trace_of(p, depth, codes)->Ok_0;
    assert(trace[st.ops.len() + n] == op);
}

/// A `throwIf` or `throwUnless` acts at run time and not before: behind the
/// evaluation of its condition it records one error event if it trips, and the
/// block goes on without one otherwise.
pub proof fn law_conditional_throw_records_when_it_trips(
    p: Program,
    depth: nat,
    st: State,
    env: Env,
    path: Seq<char>,
    code: Seq<char>,
    condition: Seq<char>,
    mode: GateMode,
    line: u32,
)
    ensures
        ({
            let gate = Stmt::GatedThrow { code, condition, mode, line };
            let at = ops::emitted(st, Op::Step { path, line });
            let out = semantics::exec_stmt(p, depth, st, env, path, gate);
            match semantics::eval_value(p, depth, at, env, condition) {
                None => out is None,
                Some((next, env, v)) => {
                    let event = semantics::failure_event(
                        "TolkThrow"@,
                        semantics::gate_label(mode) + ": code "@ + code,
                    );
                    let trips = semantics::truthy(v) == (mode is If);
                    &&& trips ==> out == Some((ops::emitted(next, event), env, Flow::Aborted))
                    &&& !trips ==> out == Some((next, env, Flow::Fallthrough))
                },
            }
        }),
{
}

/// Of the arms of a `match` the first with the tag of the value runs; there is
/// none exactly if no arm has the tag.
pub proof fn law_first_matching_arm_runs(arms: Seq<Arm>, tag: Seq<char>)
    ensures
        match semantics::chosen_arm(arms, tag) {
            Some(i) => {
                &&& 0 <= i < arms.len()
                &&& arms[i].constructor == tag
                &&& forall|j: int| 0 <= j < i ==> (#[trigger] arms[j]).constructor != tag
            },
            None => forall|j: int| 0 <= j < arms.len() ==> (#[trigger] arms[j]).constructor != tag,
        },
{
    text::lemma_first_from(0, arms.len() as int, semantics::arm_for(arms, tag));
    let p = semantics::arm_for(arms, tag);
    assert forall|j: int| 0 <= j < arms.len() implies p(j) == (#[trigger] arms[j].constructor
        == tag) by {}
}

/// The binder of an arm is bound for the duration of the arm: behind it the
/// name is what it was before, and every other name what the arm made of it.
pub proof fn law_binder_lasts_for_its_arm(
    before: Env,
    after: Env,
    arm: Arm,
    fields: Seq<(Seq<char>, Val)>,
    name: Seq<char>,
)
    requires
        fields.len() > 0,
    ensures
        ({
            let left = semantics::arm_left(before, after, arm, fields);
            if arm.payload_binding == Some(name) {
                &&& left.dom().contains(name) == before.dom().contains(name)
                &&& before.dom().contains(name) ==> left[name] == before[name]
            } else {
                &&& left.dom().contains(name) == after.dom().contains(name)
                &&& after.dom().contains(name) ==> left[name] == after[name]
            }
        }),
{
}

/// What was stored comes back: behind a store of a cell every load gives that
/// cell and leaves the storage as it is, each with one event, and the events
/// show the same contents.
pub proof fn law_storage_gives_back_cells(
    st: State,
    store: Seq<char>,
    load: Seq<char>,
    payload: Seq<i64>,
    refs: Seq<Seq<i64>>,
)
    ensures
        ({
            let cell = Val::Cell { payload, refs };
            let stored = semantics::data_stored(st, store, cell);
            let (next, got) = semantics::data_loaded(stored, load);
            let summary = value::payload_refs_text("Cell"@, payload, refs);
            &&& got == cell
            &&& next.storage == stored.storage
            &&& stored.ops == st.ops.push(
                semantics::storage_event(EventKind::Write, store, summary),
            )
            &&& next.ops == stored.ops.push(
                semantics::storage_event(EventKind::Read, load, summary),
            )
        }),
{
}

/// Before the first store a load gives the empty cell.
pub proof fn law_empty_storage_is_the_empty_cell(st: State, load: Seq<char>)
    requires
        st.storage is None,
    ensures
        semantics::data_loaded(st, load).1 == semantics::empty_cell(),
{
}

/// The arguments of a call are the values of its parameters: each parameter
/// that has an argument is bound to it (the last of a name to the last of its
/// arguments), one without an argument is unbound, and nothing else is bound.
pub proof fn law_arguments_bind_parameters(
    params: Seq<(Seq<char>, Seq<char>)>,
    args: Seq<Val>,
    n: int,
)
    requires
        0 <= n <= params.len(),
        n <= args.len(),
    ensures
        forall|i: int|
            #![trigger params[i]]
            0 <= i < n && (forall|j: int| i < j < n ==> params[j].0 != params[i].0) ==> {
                &&& semantics::params_bound(params, args, n).dom().contains(params[i].0)
                &&& semantics::params_bound(params, args, n)[params[i].0] == args[i]
            },
        forall|name: Seq<char>| #[trigger]
            semantics::params_bound(params, args, n).dom().contains(name) ==> exists|i: int|
                0 <= i < n && (#[trigger] params[i]).0 == name,
    decreases n,
{
    if n > 0 {
        law_arguments_bind_parameters(params, args, n - 1);
        let less = semantics::params_bound(params, args, n - 1);
        let all = semantics::params_bound(params, args, n);
        assert forall|i: int|
            #![trigger params[i]]
            0 <= i < n && (forall|j: int| i < j < n ==> params[j].0 != params[i].0) implies {
            &&& all.dom().contains(params[i].0)
            &&& all[params[i].0] == args[i]
        } by {
            if i < n - 1 {
                assert(params[n - 1].0 != params[i].0);
                assert(forall|j: int| i < j < n - 1 ==> params[j].0 != params[i].0);
                assert(less.dom().contains(params[i].0));
            }
        }
        assert forall|name: Seq<char>| #[trigger] all.dom().contains(name) implies exists|i: int|
            0 <= i < n && (#[trigger] params[i]).0 == name by {
            if name == params[n - 1].0 {
            } else {
                assert(less.dom().contains(name));
                let i = choose|i: int| 0 <= i < n - 1 && (#[trigger] params[i]).0 == name;
                assert(params[i].0 == name);
            }
        }
    }
}

/// A `repeat` runs as often as its count says, up to the bound on loops, and
/// not at all for a negative count or one that is no integer.
pub proof fn law_repeat_counts(n: i64)
    ensures
        semantics::repeat_count(Some(Val::Int(n))) <= semantics::LOOP_ITERATION_BOUND,
        0 <= n <= semantics::LOOP_ITERATION_BOUND ==> semantics::repeat_count(
            Some(Val::Int(n)),
        ) == n,
        n > semantics::LOOP_ITERATION_BOUND ==> semantics::repeat_count(Some(Val::Int(n)))
            == semantics::LOOP_ITERATION_BOUND,
        n < 0 ==> semantics::repeat_count(Some(Val::Int(n))) == 0,
        semantics::repeat_count(None) == 0,
{
}

/// A cast does not change what an expression comes to, nor what its evaluation
/// records.
pub proof fn law_cast_does_not_change_evaluation(
    p: Program,
    depth: nat,
    st: State,
    env: Env,
    e: Seq<char>,
    ty: Seq<char>,
)
    requires
        ty.len() > 0,
        forall|i: int| 0 <= i < ty.len() ==> chars::ascii_word(#[trigger] ty[i]),
        !(e.len() >= 3 && e.skip(e.len() - 3) == " as"@),
    ensures
        semantics::eval_value(p, depth, st, env, e + " as "@ + ty) == semantics::eval_value(
            p,
            depth,
            st,
            env,
            e,
        ),
        semantics::eval_int(p, depth, st, env, e + " as "@ + ty) == semantics::eval_int(
            p,
            depth,
            st,
            env,
            e,
        ),
{
    rewrite::law_cast_changes_nothing(e, ty);
}

/// Every statement but `throw` and `assert` is a step: the first thing that it
/// records is the step to its own line.
pub proof fn law_statement_begins_with_its_step(
    p: Program,
    depth: nat,
    st: State,
    env: Env,
    path: Seq<char>,
    s: Stmt,
)
    requires
        semantics::exec_stmt(p, depth, st, env, path, s) is Some,
        !(s is Throw || s is Assert),
    ensures
        ({
            let next = nesting::end_state(st, semantics::exec_stmt(p, depth, st, env, path, s));
            wellformed::begins(st.ops.push(Op::Step { path, line: s.line() }), next.ops)
        }),
{
    nesting::lemma_exec_stmt(p, depth, depth, st, env, path, s);
    let next = nesting::end_state(st, semantics::exec_stmt(p, depth, st, env, path, s));
    wellformed::lemma_steady_sound(nesting::stepped(st, path, s), next);
}

/// The body of a `do` loop runs at least once, before its condition is tested.
pub proof fn law_do_loop_runs_its_body(
    p: Program,
    depth: nat,
    st: State,
    env: Env,
    path: Seq<char>,
    body: Seq<Stmt>,
    cond: Seq<char>,
    line: u32,
)
    requires
        semantics::exec_stmt(
            p,
            depth,
            st,
            env,
            path,
            Stmt::DoUntil { body, cond, line },
        ) is Some,
    ensures
        ({
            let s = Stmt::DoUntil { body, cond, line };
            let at = nesting::stepped(st, path, s);
            let once = semantics::nested_block(p, depth, at, env, path, body);
            let end = nesting::end_state(st, semantics::exec_stmt(p, depth, st, env, path, s));
            once is Some && wellformed::begins(nesting::end_state(at, once).ops, end.ops)
        }),
{
    broadcast use wellformed::lemma_steady_trans;

    let s = Stmt::DoUntil { body, cond, line };
    let at = nesting::stepped(st, path, s);
    let once = semantics::nested_block(p, depth, at, env, path, body);
    let end = nesting::end_state(st, semantics::exec_stmt(p, depth, st, env, path, s));
    let bound = semantics::LOOP_ITERATION_BOUND as nat;
    assert(semantics::until_loop(p, depth, at, env, path, cond, body, bound) is Some);
    let mid = nesting::end_state(at, once);
    wellformed::lemma_steady_refl(mid);
    if let Some((st1, env1, Flow::Fallthrough)) = once {
        nesting::lemma_eval_value(p, depth, depth, st1, env1, cond);
        if let Some((st2, env2, v)) = semantics::eval_value(p, depth, st1, env1, cond) {
            if !semantics::truthy(v) {
                nesting::lemma_until(
                    p,
                    depth,
                    depth,
                    st2,
                    env2,
                    path,
                    cond,
                    body,
                    (bound - 1) as nat,
                );
            }
        }
    }
    wellformed::lemma_steady_sound(mid, end);
}

/// A variable keeps the shape of its value: its name alone evaluates to exactly
/// the value that it has, and records nothing.
pub proof fn law_variable_has_its_value(
    p: Program,
    depth: nat,
    st: State,
    env: Env,
    name: Seq<char>,
)
    requires
        depth > 0,
        syntax::word_name(name),
        text::trimmed(name) == name,
        env.dom().contains(name),
    ensures
        semantics::eval_value(p, depth, st, env, name) == Some((st, env, Some(env[name]))),
{
    syntax::lemma_name_is_plain(name);
    assert forall|i: int| 0 <= i < name.len() implies !(#[trigger] rewrite::cast_at(name, i)) by {
        reveal_strlit(" as ");
        if rewrite::cast_at(name, i) {
            assert(name[i] == name.subrange(i, i + 4)[0]);
        }
    }
    rewrite::law_text_without_cast_is_kept(name);
}

/// A method call on a variable as it is written.
pub open spec fn method_text(name: Seq<char>, method: Seq<char>, args: Seq<Seq<char>>) -> Seq<
    char,
> {
    name + "."@ + method + "("@ + grammar::list_text(args) + ")"@
}

pub proof fn lemma_name_depth(name: Seq<char>)
    requires
        forall|i: int|
            0 <= i < name.len() && chars::ascii(#[trigger] name[i]) ==> chars::ascii_word(name[i]),
    ensures
        brackets::depth(name) == 0,
    decreases name.len(),
{
    if name.len() > 0 {
        let less = name.drop_last();
        assert forall|i: int| 0 <= i < less.len() && chars::ascii(#[trigger] less[i]) implies
            chars::ascii_word(less[i]) by {
            assert(less[i] == name[i]);
        }
        lemma_name_depth(less);
        assert(name.last() == name[name.len() - 1]);
    }
}

/// A method of a variable acts on the value of the variable behind the
/// evaluation of the arguments.
pub proof fn law_method_of_a_variable(
    p: Program,
    depth: nat,
    st: State,
    env: Env,
    name: Seq<char>,
    method: Seq<char>,
    args: Seq<Seq<char>>,
)
    requires
        depth > 0,
        grammar::plain_name(name),
        grammar::plain_name(method),
        forall|i: int| 0 <= i < args.len() ==> grammar::list_item(#[trigger] args[i]),
        semantics::eval_each(p, depth, st, env, args, 0, Seq::empty()) is Some,
        (semantics::eval_each(p, depth, st, env, args, 0, Seq::empty())->0).1.dom().contains(name),
    ensures
        ({
            let (st1, env1, values) =
                semantics::eval_each(p, depth, st, env, args, 0, Seq::empty())->0;
            semantics::ton_call(p, depth, st, env, method_text(name, method, args))
                == semantics::on_receiver(
                p,
                depth,
                st1,
                env1,
                name,
                method,
                args,
                values,
                env1[name],
            )
        }),
{
    let (st1, env1, values) = semantics::eval_each(p, depth, st, env, args, 0, Seq::empty())->0;
    syntax::lemma_name_is_plain(name);
    lemma_name_depth(name);
    grammar::law_method_call_is_read_back(name, method, args);
    grammar::lemma_method_is_no_call(name, method, args);
    law_variable_has_its_value(p, depth, st1, env1, name);
}

proof fn lemma_loads_are_names(load: Load, method: Seq<char>)
    requires
        cells::loads_by(load, method),
    ensures
        grammar::plain_name(method),
        forall|base: Val, arg: Option<Val>| #[trigger]
            cells::method_outcome(method, base, arg) == cells::load_outcome(base, load),
{
    reveal_strlit("storeInt");
    reveal_strlit("storeUint");
    reveal_strlit("storeAddress");
    reveal_strlit("storeRef");
    reveal_strlit("storeMaybeRef");
    reveal_strlit("storeSlice");
    reveal_strlit("endCell");
    reveal_strlit("beginParse");
    reveal_strlit("loadInt");
    reveal_strlit("loadUint");
    reveal_strlit("loadAddress");
    reveal_strlit("loadRef");
    reveal_strlit("loadMaybeRef");
    assert(method[0] == 'l');
    text::lemma_trimmed_already(method);
}

/// What was stored in a cell comes back by the loads of a variable: where the
/// variable is the slice of a cell that was built of any stores, after any
/// loads, the next load gives the store of its kind with its number, and moves
/// the variable on by this one load.
pub proof fn law_loads_of_a_variable_give_back_stores(
    p: Program,
    depth: nat,
    st: State,
    env: Env,
    name: Seq<char>,
    method: Seq<char>,
    args: Seq<Seq<char>>,
    stores: Seq<Store>,
    loads: Seq<Load>,
    load: Load,
)
    requires
        depth > 0,
        grammar::plain_name(name),
        cells::loads_by(load, method),
        forall|i: int| 0 <= i < args.len() ==> grammar::list_item(#[trigger] args[i]),
        stores.len() <= usize::MAX,
        ({
            let evaluated = semantics::eval_each(p, depth, st, env, args, 0, Seq::empty());
            &&& evaluated is Some
            &&& (evaluated->0).1.dom().contains(name)
            &&& (evaluated->0).1[name] == cells::loaded(cells::parsed(stores), loads)
        }),
    ensures
        ({
            let (st1, env1, _) =
                semantics::eval_each(p, depth, st, env, args, 0, Seq::empty())->0;
            semantics::ton_call(p, depth, st, env, method_text(name, method, args)) == Some(
                (
                    st1,
                    env1.insert(name, cells::loaded(cells::parsed(stores), loads.push(load))),
                    Some(cells::given_back(stores, loads, load)),
                ),
            )
        }),
{
    lemma_loads_are_names(load, method);
    syntax::lemma_name_is_plain(name);
    law_method_of_a_variable(p, depth, st, env, name, method, args);
    cells::law_loads_give_back_stores(stores, loads, load);
}

proof fn lemma_stores_are_names(store: Store, method: Seq<char>)
    requires
        cells::stores_by(store, method),
    ensures
        grammar::plain_name(method),
        forall|base: Val| #[trigger]
            cells::method_outcome(method, base, Some(cells::store_argument(store)))
                == cells::store_outcome(base, store),
{
    reveal_strlit("storeInt");
    reveal_strlit("storeUint");
    reveal_strlit("storeAddress");
    reveal_strlit("storeRef");
    reveal_strlit("storeMaybeRef");
    assert(method[0] == 's');
    text::lemma_trimmed_already(method);
}

/// A builder gathers what is stored in it: where a variable is the builder of
/// any stores, a store by its method gives the builder with this store behind
/// the others, and leaves the variable as it is.
pub proof fn law_stores_of_a_variable_append(
    p: Program,
    depth: nat,
    st: State,
    env: Env,
    name: Seq<char>,
    method: Seq<char>,
    args: Seq<Seq<char>>,
    stores: Seq<Store>,
    store: Store,
)
    requires
        depth > 0,
        grammar::plain_name(name),
        cells::stores_by(store, method),
        forall|i: int| 0 <= i < args.len() ==> grammar::list_item(#[trigger] args[i]),
        ({
            let evaluated = semantics::eval_each(p, depth, st, env, args, 0, Seq::empty());
            &&& evaluated is Some
            &&& (evaluated->0).1.dom().contains(name)
            &&& (evaluated->0).1[name] == cells::stored(cells::empty_builder(), stores)
            &&& semantics::first_value((evaluated->0).2) == Some(cells::store_argument(store))
        }),
    ensures
        ({
            let (st1, env1, _) =
                semantics::eval_each(p, depth, st, env, args, 0, Seq::empty())->0;
            semantics::ton_call(p, depth, st, env, method_text(name, method, args)) == Some(
                (
                    st1,
                    env1,
                    Some(cells::stored(cells::empty_builder(), stores.push(store))),
                ),
            )
        }),
{
    lemma_stores_are_names(store, method);
    law_method_of_a_variable(p, depth, st, env, name, method, args);
    cells::law_stores_append(Seq::empty(), Seq::empty(), stores);
    assert(stores.push(store).drop_last() =~= stores);
}

/// The entry point is no call: its body is recorded as part of the top level,
/// directly behind the common types and the registration of the function.
pub proof fn law_main_is_no_call(p: Program, depth: nat, codes: Option<Seq<i64>>, i: int)
    requires
        semantics::function_named(p.funcs, "main"@) == Some(i),
        p.funcs[i].body.len() > 0,
        !(p.funcs[i].body[0] is Throw || p.funcs[i].body[0] is Assert),
        tracer::trace_of(p, depth, codes) is Ok,
    ensures
        ({
            let f = p.funcs[i];
            let function = Op::Function { name: f.name, path: f.source_path, line: f.line };
            let step = Op::Step { path: f.source_path, line: f.body[0].line() };
            wellformed::begins(
                tracer::initial_state().ops.push(function).push(step),
                tracer::trace_of(p, depth, codes)->Ok_0,
            )
        }),
{
    broadcast use wellformed::lemma_steady_trans;

    reveal(tracer::program_run);
    let f = p.funcs[i];
    let args = Seq::<Val>::empty();
    let st = semantics::call_opened(tracer::initial_state(), p.variants, f, true, args);
    let env = semantics::params_bound(f.params, args, semantics::bound_count(f.params, args));
    let path = f.source_path;
    let at = nesting::stepped(st, path, f.body[0]);
    nesting::lemma_exec_stmt(p, depth, depth, st, env, path, f.body[0]);
    let first = semantics::exec_stmt(p, depth, st, env, path, f.body[0]);
    let whole = semantics::exec_block(p, depth, st, env, path, f.body, 0);
    if let Some((st1, env1, Flow::Fallthrough)) = first {
        nesting::lemma_exec_block(p, depth, depth, st1, env1, path, f.body, 1);
    }
    let end = nesting::end_state(st, whole);
    wellformed::lemma_steady_sound(at, end);
    let trace = tracer::trace_of(p, depth, codes)->Ok_0;
    assert(trace.take(at.ops.len() as int) =~= end.ops.take(at.ops.len() as int));
}

/// Reading back the hexadecimal digits of some bytes.
proof fn lemma_hex_digits(bytes: Seq<u8>)
    ensures
        numeral::bytes_hex(bytes).len() == 2 * bytes.len(),
        forall|i: int|
            0 <= i < bytes.len() ==> {
                &&& chars::hex_digit(numeral::bytes_hex(bytes)[2 * i]) == Some(
                    (#[trigger] bytes[i] as int / 16) as u8,
                )
                &&& chars::hex_digit(numeral::bytes_hex(bytes)[2 * i + 1]) == Some(
                    (bytes[i] as int % 16) as u8,
                )
            },
        forall|k: int|
            0 <= k < numeral::bytes_hex(bytes).len() ==> chars::hex_digit(
                #[trigger] numeral::bytes_hex(bytes)[k],
            ) is Some,
    decreases bytes.len(),
{
    if bytes.len() > 0 {
        let less = bytes.drop_last();
        let last = numeral::byte_hex(bytes.last());
        let front = numeral::bytes_hex(less);
        let all = numeral::bytes_hex(bytes);
        lemma_hex_digits(less);
        assert forall|i: int| 0 <= i < bytes.len() implies {
            &&& chars::hex_digit(all[2 * i]) == Some((#[trigger] bytes[i] as int / 16) as u8)
            &&& chars::hex_digit(all[2 * i + 1]) == Some((bytes[i] as int % 16) as u8)
        } by {
            if i < less.len() {
                assert(less[i] == bytes[i]);
                assert(all[2 * i] == front[2 * i]);
                assert(all[2 * i + 1] == front[2 * i + 1]);
            } else {
                assert(all[2 * i] == last[0]);
                assert(all[2 * i + 1] == last[1]);
            }
        }
        assert forall|k: int| 0 <= k < all.len() implies chars::hex_digit(
            #[trigger] all[k],
        ) is Some by {
            if k < front.len() {
                assert(all[k] == front[k]);
            } else {
                assert(all[k] == last[k - front.len()]);
            }
        }
    }
}

/// A text of digits has no white space to be dropped.
proof fn lemma_no_white(s: Seq<char>)
    requires
        forall|k: int| 0 <= k < s.len() ==> chars::hex_digit(#[trigger] s[k]) is Some,
    ensures
        syntax::without_white(s) == s,
    decreases s.len(),
{
    if s.len() > 0 {
        assert(chars::hex_digit(s[s.len() - 1]) is Some);
        lemma_no_white(s.drop_last());
        assert(s.drop_last().push(s.last()) =~= s);
    }
}

/// A literal of hexadecimal digits is the slice of the bytes that they write,
/// and a trace shows it as it stands in the source.
pub proof fn law_hex_literal_is_shown_as_written(bytes: Seq<u8>)
    ensures
        ({
            let source = "0x\""@ + numeral::bytes_hex(bytes) + "\""@;
            &&& syntax::slice_shape(source) == Some(
                Val::SliceLit { encoding: SliceEncoding::Hex, bytes },
            )
            &&& ops::literal_text(SliceEncoding::Hex, bytes) == "Slice<hex> "@ + source
        }),
{
    reveal_strlit("0x\"");
    reveal_strlit("\"");
    reveal_strlit("Slice<hex> ");
    reveal_strlit("Slice<hex> 0x\"");
    let digits = numeral::bytes_hex(bytes);
    let source = "0x\""@ + digits + "\""@;
    lemma_hex_digits(bytes);
    lemma_no_white(digits);
    assert(source[0] == '0');
    assert(source.last() == '"');
    text::lemma_trimmed_already(source);
    let rest = digits + "\""@;
    assert(source.subrange(0, 3) =~= "0x\""@);
    assert(source.skip(3) =~= rest);
    assert(rest.subrange(digits.len() as int, rest.len() as int) =~= "\""@);
    assert(rest.take(digits.len() as int) =~= digits);
    assert(digits.len() % 2 == 0);
    assert forall|i: int| 0 <= i < bytes.len() implies #[trigger] syntax::digit_bytes(digits)[i]
        == bytes[i] by {
        let b = bytes[i] as int;
        assert(b / 16 * 16 + b % 16 == b);
    }
    assert(syntax::digit_bytes(digits) =~= bytes);
    assert(ops::literal_text(SliceEncoding::Hex, bytes) =~= "Slice<hex> "@ + source);
}

/// A text without backslashes and quotes means itself.
proof fn lemma_plain_text(s: Seq<char>, i: int)
    requires
        0 <= i <= s.len(),
        forall|k: int| 0 <= k < s.len() ==> #[trigger] s[k] != '\\' && s[k] != '"',
    ensures
        syntax::unescaped(s, i) == s.skip(i),
        syntax::quotes_escaped(s, i),
    decreases s.len() - i,
{
    if i < s.len() {
        lemma_plain_text(s, i + 1);
        assert(seq![s[i]] + s.skip(i + 1) =~= s.skip(i));
    } else {
        assert(s.skip(i) =~= Seq::empty());
    }
}

/// A literal of text is the slice of its UTF-8 bytes, and a trace shows it as
/// it stands in the source (a text with escapes is shown with the characters
/// that they stand for).
pub proof fn law_text_literal_is_shown_as_written(body: Seq<char>)
    requires
        forall|k: int| 0 <= k < body.len() ==> #[trigger] body[k] != '\\' && body[k] != '"',
    ensures
        ({
            let source = "\""@ + body + "\""@;
            let bytes = vstd::utf8::encode_utf8(body);
            &&& syntax::slice_shape(source) == Some(
                Val::SliceLit { encoding: SliceEncoding::Text, bytes },
            )
            &&& ops::literal_text(SliceEncoding::Text, bytes) == "Slice<text> "@ + source
        }),
{
    reveal_strlit("0x\"");
    reveal_strlit("0X\"");
    reveal_strlit("\"");
    reveal_strlit("Slice<text> ");
    reveal_strlit("Slice<text> \"");
    let source = "\""@ + body + "\""@;
    let bytes = vstd::utf8::encode_utf8(body);
    assert(source[0] == '"');
    assert(source.last() == '"');
    text::lemma_trimmed_already(source);
    if "0x\""@.is_prefix_of(source) {
        assert(source.subrange(0, 3)[0] == '0');
    }
    if "0X\""@.is_prefix_of(source) {
        assert(source.subrange(0, 3)[0] == '0');
    }
    let rest = body + "\""@;
    assert(source.subrange(0, 1) =~= "\""@);
    assert(source.skip(1) =~= rest);
    assert(rest.subrange(body.len() as int, rest.len() as int) =~= "\""@);
    assert(rest.take(body.len() as int) =~= body);
    lemma_plain_text(body, 0);
    assert(body.skip(0) =~= body);
    vstd::utf8::encode_utf8_valid_utf8(body);
    vstd::utf8::encode_utf8_decode_utf8(body);
    assert(ops::literal_text(SliceEncoding::Text, bytes) =~= "Slice<text> "@ + source);
}

/// The messages of a directive are taken in order, each by one run of the
/// handler on the state that the messages before it left: one message more is
/// one run more.
pub proof fn law_messages_are_taken_in_order(
    p: Program,
    depth: nat,
    st: State,
    f: Func,
    codes: Seq<i64>,
    code: i64,
    first: bool,
)
    ensures
        tracer::messages_taken(p, depth, st, f, codes.push(code), 0, first) == (
        match tracer::messages_taken(p, depth, st, f, codes, 0, first) {
            None => None,
            Some(mid) => match semantics::call_function(
                p,
                depth,
                mid,
                f,
                first && codes.len() == 0,
                tracer::entry_args(f.params, Some(code)),
            ) {
                None => None,
                Some((next, _)) => Some(next),
            },
        }),
{
    lemma_one_message_more(p, depth, st, f, codes, code, 0, first);
}

proof fn lemma_one_message_more(
    p: Program,
    depth: nat,
    st: State,
    f: Func,
    codes: Seq<i64>,
    code: i64,
    i: int,
    first: bool,
)
    requires
        0 <= i <= codes.len(),
    ensures
        tracer::messages_taken(p, depth, st, f, codes.push(code), i, first) == (
        match tracer::messages_taken(p, depth, st, f, codes, i, first) {
            None => None,
            Some(mid) => match semantics::call_function(
                p,
                depth,
                mid,
                f,
                first && codes.len() == 0,
                tracer::entry_args(f.params, Some(code)),
            ) {
                None => None,
                Some((next, _)) => Some(next),
            },
        }),
    decreases codes.len() - i,
{
    let all = codes.push(code);
    if i == codes.len() {
        assert(all[i] == code);
        reveal_with_fuel(tracer::messages_taken, 2);
    } else {
        assert(all[i] == codes[i]);
        let args = tracer::entry_args(f.params, Some(codes[i]));
        if let Some((next, _)) = semantics::call_function(p, depth, st, f, first && i == 0, args) {
            lemma_one_message_more(p, depth, next, f, codes, code, i + 1, first);
        }
    }
}

} // verus!
