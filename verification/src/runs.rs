//! Laws of whole programs: where a run begins, what it is given, and what its
//! trace is made of.

use vstd::prelude::*;

use crate::ast::{Arm, Func, Stmt};
use crate::calls;
use crate::directives;
use crate::flow;
use crate::functions;
use crate::ops::{EventKind, Op, Rec, State, TypeKind};
use crate::rewrite::Env;
use crate::semantics;
use crate::semantics::Program;
use crate::text;
use crate::tracer;
use crate::tracer::TraceError;
use crate::value::Val;

verus! {

/// The state in which every run begins: the types of integers, booleans and
/// tuples are registered, nothing is stored and nothing else is recorded.
pub open spec fn beginning() -> State {
    State {
        ops: seq![
            Op::Type { kind: TypeKind::Int, name: "int"@ },
            Op::Type { kind: TypeKind::Int, name: "bool"@ },
            Op::Type { kind: TypeKind::Sequence, name: "Tuple"@ },
        ],
        types: seq!["int"@, "bool"@, "Tuple"@],
        storage: None,
    }
}

/// No function has the name.
pub open spec fn undefined(funcs: Seq<Func>, name: Seq<char>) -> bool {
    forall|j: int| 0 <= j < funcs.len() ==> (#[trigger] funcs[j]).name != name
}

proof fn lemma_undefined(funcs: Seq<Func>, name: Seq<char>)
    requires
        undefined(funcs, name),
    ensures
        semantics::function_named(funcs, name) is None,
{
    let q = semantics::has_name(funcs, name);
    text::lemma_last_below(funcs.len() as int, q);
    if let Some(k) = semantics::function_named(funcs, name) {
        assert(q(k));
        assert(funcs[k].name == name);
    }
}

/// The trace of a run that ended in this state.
pub open spec fn finished(st: State, funcs: Seq<Func>) -> Result<Seq<Op>, TraceError> {
    Ok((st.ops + tracer::program_failures(funcs)).push(Op::Return { value: Rec::Nothing }))
}

/// A program with a `main` runs the last one, without arguments and variables,
/// behind a record of the function alone. Its trace is what that recorded, the
/// failures of the program, and one return at the end.
pub proof fn law_program_runs_main(p: Program, depth: nat, codes: Option<Seq<i64>>, i: int)
    requires
        calls::defined(p.funcs, i, "main"@),
        p.funcs[i].params.len() == 0,
    ensures
        ({
            let f = p.funcs[i];
            let begin = flow::recorded(
                beginning(),
                Op::Function { name: f.name, path: f.source_path, line: f.line },
            );
            let none: Env = Map::empty();
            match semantics::exec_block(p, depth, begin, none, f.source_path, f.body, 0) {
                None => tracer::trace_of(p, depth, codes) == Err::<Seq<Op>, TraceError>(
                    TraceError::TooDeep,
                ),
                Some((end, _, _)) => tracer::trace_of(p, depth, codes) == finished(end, p.funcs),
            }
        }),
{
    reveal(tracer::program_run);
    calls::lemma_defined(p.funcs, i, "main"@);
    let f = p.funcs[i];
    assert(semantics::params_bound(f.params, Seq::empty(), 0) =~= Map::<Seq<char>, Val>::empty());
}

/// A program without an entry point has no trace.
pub proof fn law_program_needs_an_entry_point(p: Program, depth: nat, codes: Option<Seq<i64>>)
    requires
        undefined(p.funcs, "main"@),
        undefined(p.funcs, "onInternalMessage"@),
        undefined(p.funcs, "onExternalMessage"@),
    ensures
        tracer::trace_of(p, depth, codes) == Err::<Seq<Op>, TraceError>(TraceError::NoEntryPoint),
{
    reveal(tracer::program_run);
    lemma_undefined(p.funcs, "main"@);
    lemma_undefined(p.funcs, "onInternalMessage"@);
    lemma_undefined(p.funcs, "onExternalMessage"@);
}

/// Without `main` the handler of internal messages runs, and then that of
/// external messages, each once if no messages are listed; the first of them is
/// no call, and the other is one.
pub proof fn law_program_runs_its_handlers(
    p: Program,
    depth: nat,
    codes: Option<Seq<i64>>,
    i: int,
    j: int,
)
    requires
        undefined(p.funcs, "main"@),
        calls::defined(p.funcs, i, "onInternalMessage"@),
        calls::defined(p.funcs, j, "onExternalMessage"@),
        codes is None || (codes->0).len() == 0,
    ensures
        ({
            let f = p.funcs[i];
            let g = p.funcs[j];
            let out = tracer::trace_of(p, depth, codes);
            match semantics::call_function(
                p,
                depth,
                beginning(),
                f,
                true,
                tracer::entry_args(f.params, None),
            ) {
                None => out == Err::<Seq<Op>, TraceError>(TraceError::TooDeep),
                Some((mid, _)) => match semantics::call_function(
                    p,
                    depth,
                    mid,
                    g,
                    false,
                    tracer::entry_args(g.params, None),
                ) {
                    None => out == Err::<Seq<Op>, TraceError>(TraceError::TooDeep),
                    Some((end, _)) => out == finished(end, p.funcs),
                },
            }
        }),
{
    reveal(tracer::program_run);
    lemma_undefined(p.funcs, "main"@);
    calls::lemma_defined(p.funcs, i, "onInternalMessage"@);
    calls::lemma_defined(p.funcs, j, "onExternalMessage"@);
}

/// A program with one handler alone runs it, and that is no call.
pub proof fn law_program_runs_its_only_handler(p: Program, depth: nat, i: int, external: bool)
    requires
        undefined(p.funcs, "main"@),
        external ==> undefined(p.funcs, "onInternalMessage"@) && calls::defined(
            p.funcs,
            i,
            "onExternalMessage"@,
        ),
        !external ==> undefined(p.funcs, "onExternalMessage"@) && calls::defined(
            p.funcs,
            i,
            "onInternalMessage"@,
        ),
    ensures
        ({
            let f = p.funcs[i];
            let out = tracer::trace_of(p, depth, None);
            match semantics::call_function(
                p,
                depth,
                beginning(),
                f,
                true,
                tracer::entry_args(f.params, None),
            ) {
                None => out == Err::<Seq<Op>, TraceError>(TraceError::TooDeep),
                Some((end, _)) => out == finished(end, p.funcs),
            }
        }),
{
    reveal(tracer::program_run);
    lemma_undefined(p.funcs, "main"@);
    if external {
        lemma_undefined(p.funcs, "onInternalMessage"@);
        calls::lemma_defined(p.funcs, i, "onExternalMessage"@);
    } else {
        lemma_undefined(p.funcs, "onExternalMessage"@);
        calls::lemma_defined(p.funcs, i, "onInternalMessage"@);
    }
}

/// A handler of internal messages runs once for each message that is listed, in
/// order, each time with the code of the message; only the first run is no
/// call.
pub proof fn law_handler_takes_each_message(
    p: Program,
    depth: nat,
    i: int,
    codes: Seq<i64>,
    stops: Seq<State>,
)
    requires
        undefined(p.funcs, "main"@),
        undefined(p.funcs, "onExternalMessage"@),
        calls::defined(p.funcs, i, "onInternalMessage"@),
        codes.len() > 0,
        stops.len() == codes.len() + 1,
        stops[0] == beginning(),
        forall|k: int|
            0 <= k < codes.len() ==> #[trigger] took(p, depth, p.funcs[i], codes, stops, k),
    ensures
        tracer::trace_of(p, depth, Some(codes)) == finished(stops.last(), p.funcs),
{
    reveal(tracer::program_run);
    lemma_undefined(p.funcs, "main"@);
    lemma_undefined(p.funcs, "onExternalMessage"@);
    calls::lemma_defined(p.funcs, i, "onInternalMessage"@);
    lemma_messages(p, depth, p.funcs[i], codes, stops, 0);
}

/// The message of this number was taken between two stops.
pub open spec fn took(
    p: Program,
    depth: nat,
    f: Func,
    codes: Seq<i64>,
    stops: Seq<State>,
    k: int,
) -> bool {
    match semantics::call_function(
        p,
        depth,
        stops[k],
        f,
        k == 0,
        tracer::entry_args(f.params, Some(codes[k])),
    ) {
        Some((st, _)) => st == stops[k + 1],
        None => false,
    }
}

proof fn lemma_messages(
    p: Program,
    depth: nat,
    f: Func,
    codes: Seq<i64>,
    stops: Seq<State>,
    k: int,
)
    requires
        0 <= k <= codes.len(),
        stops.len() == codes.len() + 1,
        forall|j: int| 0 <= j < codes.len() ==> #[trigger] took(p, depth, f, codes, stops, j),
    ensures
        tracer::messages_taken(p, depth, stops[k], f, codes, k, true) == Some(stops.last()),
    decreases codes.len() - k,
{
    if k < codes.len() {
        assert(took(p, depth, f, codes, stops, k));
        lemma_messages(p, depth, f, codes, stops, k + 1);
    }
}

/// A handler gets one argument for each parameter, by its type: coins, an
/// address, a cell, a slice with the code of the message in it if there is one,
/// and zero for every other type.
pub proof fn law_handler_gets_arguments_by_type(
    params: Seq<(Seq<char>, Seq<char>)>,
    code: Option<i64>,
    k: int,
)
    requires
        0 <= k < params.len(),
    ensures
        ({
            let args = tracer::entry_args(params, code);
            let ty = params[k].1;
            let none = Seq::<Seq<i64>>::empty();
            &&& args.len() == params.len()
            &&& ty == "coin"@ ==> args[k] == Val::Coin(1_000_000_000)
            &&& ty == "address"@ ==> args[k] == (Val::Address { workchain: 0, hash: 48879 })
            &&& ty == "cell"@ ==> args[k] == (Val::Cell { payload: seq![51966i64], refs: none })
            &&& ty == "slice"@ && code is None ==> args[k] == (Val::Slice {
                payload: Seq::empty(),
                pos: 0,
                refs: none,
                ref_pos: 0,
            })
            &&& ty == "slice"@ && code is Some ==> args[k] == (Val::Slice {
                payload: seq![code->0],
                pos: 0,
                refs: none,
                ref_pos: 0,
            })
            &&& ty != "coin"@ && ty != "address"@ && ty != "cell"@ && ty != "slice"@ ==> args[k]
                == Val::Int(0)
        }),
{
    reveal_strlit("coin");
    reveal_strlit("address");
    reveal_strlit("cell");
    reveal_strlit("slice");
    assert("coin"@[1] != "cell"@[1]);
    assert("coin"@.len() == 4);
    assert("address"@.len() == 7);
    assert("cell"@.len() == 4);
    assert("slice"@.len() == 5);
}

/// The error of a failing statement.
pub open spec fn failure(metadata: Seq<char>, content: Seq<char>) -> Op {
    Op::Event { channel: EventKind::Error, metadata, content }
}

proof fn lemma_failures_add(a: Seq<Stmt>, b: Seq<Stmt>)
    ensures
        tracer::block_failures(a + b) == tracer::block_failures(a) + tracer::block_failures(b),
    decreases b.len(),
{
    if b.len() == 0 {
        assert(a + b =~= a);
        assert(tracer::block_failures(a) + tracer::block_failures(b) =~= tracer::block_failures(a));
    } else {
        assert((a + b).drop_last() =~= a + b.drop_last());
        lemma_failures_add(a, b.drop_last());
        assert(tracer::block_failures(a + b) =~= tracer::block_failures(a)
            + tracer::block_failures(b));
    }
}

proof fn lemma_arms_add(a: Seq<Arm>, b: Seq<Arm>)
    ensures
        tracer::arms_failures(a + b) == tracer::arms_failures(a) + tracer::arms_failures(b),
    decreases b.len(),
{
    if b.len() == 0 {
        assert(a + b =~= a);
        assert(tracer::arms_failures(a) + tracer::arms_failures(b) =~= tracer::arms_failures(a));
    } else {
        assert((a + b).drop_last() =~= a + b.drop_last());
        lemma_arms_add(a, b.drop_last());
        assert(tracer::arms_failures(a + b) =~= tracer::arms_failures(a) + tracer::arms_failures(
            b,
        ));
    }
}

/// The failures of a block are those of its statements, in order: a `throw` and
/// an `assert` are one each and name their code, a statement with blocks has
/// those of its blocks, and every other statement has none.
pub proof fn law_failures_are_those_of_the_statements(
    a: Seq<Stmt>,
    b: Seq<Stmt>,
    s: Stmt,
    arms: Seq<Arm>,
    arm: Arm,
    f: Func,
    funcs: Seq<Func>,
)
    ensures
        tracer::block_failures(a + b) == tracer::block_failures(a) + tracer::block_failures(b),
        tracer::block_failures(seq![s]) == tracer::stmt_failures(s),
        tracer::block_failures(Seq::empty()) == Seq::<Op>::empty(),
        match s {
            Stmt::Throw { code, .. } => tracer::stmt_failures(s) == seq![
                failure("TolkThrow"@, "throw "@ + code),
            ],
            Stmt::Assert { code, .. } => tracer::stmt_failures(s) == seq![
                failure("TolkAssert"@, "assert: code "@ + code),
            ],
            Stmt::If { then_block, else_block, .. } => tracer::stmt_failures(s)
                == tracer::block_failures(then_block + else_block),
            Stmt::While { body, .. } => tracer::stmt_failures(s) == tracer::block_failures(body),
            Stmt::Repeat { body, .. } => tracer::stmt_failures(s) == tracer::block_failures(body),
            Stmt::DoUntil { body, .. } => tracer::stmt_failures(s) == tracer::block_failures(body),
            Stmt::Match { arms: list, .. } => tracer::stmt_failures(s) == tracer::arms_failures(
                list,
            ),
            _ => tracer::stmt_failures(s) == Seq::<Op>::empty(),
        },
        tracer::arms_failures(arms.push(arm)) == tracer::arms_failures(arms)
            + tracer::block_failures(arm.body),
        tracer::arms_failures(Seq::empty()) == Seq::<Op>::empty(),
        tracer::program_failures(funcs.push(f)) == tracer::program_failures(funcs)
            + tracer::block_failures(f.body),
        tracer::program_failures(Seq::empty()) == Seq::<Op>::empty(),
{
    lemma_failures_add(a, b);
    assert(seq![s].drop_last() =~= Seq::empty());
    reveal_with_fuel(tracer::block_failures, 2);
    assert(Seq::<Op>::empty() + tracer::stmt_failures(s) =~= tracer::stmt_failures(s));
    if let Stmt::If { then_block, else_block, .. } = s {
        lemma_failures_add(then_block, else_block);
    }
    assert(arms.push(arm).drop_last() =~= arms);
    assert(funcs.push(f).drop_last() =~= funcs);
}

/// A program has the functions of its entry file and then those of the files
/// that it imports, in the order of the files, and the constructors of the
/// unions of all of them.
pub proof fn law_program_joins_its_files(
    path: Seq<char>,
    source: Seq<char>,
    files: Seq<(Seq<char>, Seq<char>)>,
    file: (Seq<char>, Seq<char>),
)
    ensures
        ({
            let alone = tracer::parsed_program(path, source, Seq::empty());
            let with = tracer::parsed_program(path, source, files);
            let more = tracer::parsed_program(path, source, files.push(file));
            &&& alone.funcs == functions::functions_of(source, path)
            &&& alone.variants == directives::variant_constructors(source)
            &&& more.funcs == with.funcs + functions::functions_of(file.1, file.0)
            &&& more.variants == with.variants.union(directives::variant_constructors(file.1))
        }),
{
    let own = functions::functions_of(source, path);
    assert(own + Seq::<Func>::empty() =~= own);
    assert(files.push(file).drop_last() =~= files);
    let with = tracer::parsed_program(path, source, files);
    let more = tracer::parsed_program(path, source, files.push(file));
    assert(more.funcs =~= with.funcs + functions::functions_of(file.1, file.0));
    assert(more.variants =~= with.variants.union(directives::variant_constructors(file.1)));
    let alone = tracer::parsed_program(path, source, Seq::empty());
    assert(alone.variants =~= directives::variant_constructors(source));
}

} // verus!
