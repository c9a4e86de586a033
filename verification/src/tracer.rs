//! Tracing of whole Tolk programs.

use vstd::prelude::*;

use crate::ast;
use crate::ast::{Arm, Func, FunctionDef, MatchArm, Statement, Stmt};
use crate::directives;
use crate::functions;
use crate::interp;
use crate::loader;
use crate::loader::SourceFile;
use crate::names::NameSet;
use crate::ops;
use crate::ops::{EventKind, Op, Rec, Record, State, TolkTracer, TraceOp, TypeKind};
use crate::semantics;
use crate::semantics::Program;
use crate::syntax;
use crate::text;
use crate::value;
use crate::value::{Val, Value};

verus! {

/// Why a program has no trace.
#[derive(Debug, Clone, Copy, PartialEq, Eq, Structural)]
pub enum TraceError {
    /// The program defines no entry point.
    NoEntryPoint,
    /// Evaluation nested more deeply than it may.
    TooDeep,
}

/// What an error says.
pub open spec fn trace_error_text(e: TraceError) -> Seq<char> {
    match e {
        TraceError::NoEntryPoint =>
            "no entry point found in Tolk program: declare `main()`, `onInternalMessage(...)`, or `onExternalMessage(...)`"@,
        TraceError::TooDeep => "evaluation is nested too deeply"@,
    }
}

impl TraceError {
    /// The message of the error.
    pub fn message(&self) -> (r: &'static str)
        ensures
            r@ == trace_error_text(*self),
    {
        match self {
            TraceError::NoEntryPoint =>
                "no entry point found in Tolk program: declare `main()`, `onInternalMessage(...)`, or `onExternalMessage(...)`",
            TraceError::TooDeep => "evaluation is nested too deeply",
        }
    }
}

/// The argument that an entry point gets for a parameter of a type: something
/// of that type to compute with. A message body holds the operation code of
/// the message, if there is one.
pub open spec fn entry_arg(ty: Seq<char>, op_code: Option<i64>) -> Val {
    if ty == "coin"@ {
        Val::Coin(1_000_000_000)
    } else if ty == "address"@ {
        Val::Address { workchain: 0, hash: 0xBEEF }
    } else if ty == "cell"@ {
        Val::Cell { payload: seq![0xCAFEi64], refs: Seq::empty() }
    } else if ty == "slice"@ {
        Val::Slice {
            payload: match op_code {
                Some(op) => seq![op],
                None => Seq::empty(),
            },
            pos: 0,
            refs: Seq::empty(),
            ref_pos: 0,
        }
    } else {
        Val::Int(0)
    }
}

/// The arguments that an entry point gets.
pub open spec fn entry_args(
    params: Seq<(Seq<char>, Seq<char>)>,
    op_code: Option<i64>,
) -> Seq<Val> {
    params.map_values(|p: (Seq<char>, Seq<char>)| entry_arg(p.1, op_code))
}

/// The argument of an entry point for a parameter of a type.
pub fn synthesize_entry_arg(param_type: &str, msg_op_code: Option<i64>) -> (r: Value)
    ensures
        r.model() == entry_arg(param_type@, msg_op_code),
{
    let refs: Vec<Vec<i64>> = Vec::new();
    assert(value::refs_model(refs@) =~= Seq::empty());
    let mut payload: Vec<i64> = Vec::new();
    if text::str_eq(param_type, "coin") {
        Value::Coin(1_000_000_000)
    } else if text::str_eq(param_type, "address") {
        Value::Address { workchain: 0, hash: 0xBEEF }
    } else if text::str_eq(param_type, "cell") {
        payload.push(0xCAFE);
        assert(payload@ =~= seq![0xCAFEi64]);
        Value::Cell { payload, refs }
    } else if text::str_eq(param_type, "slice") {
        if let Some(op) = msg_op_code {
            payload.push(op);
            assert(payload@ =~= seq![op]);
        }
        Value::Slice { payload, pos: 0, refs, ref_pos: 0 }
    } else {
        Value::Int(0)
    }
}

fn make_entry_args(params: &Vec<(String, String)>, op_code: Option<i64>) -> (r: Vec<Value>)
    ensures
        value::values_model(r@) == entry_args(syntax::pairs(params@), op_code),
{
    let ghost all = entry_args(syntax::pairs(params@), op_code);
    let mut out: Vec<Value> = Vec::new();
    let mut i: usize = 0;
    assert(value::values_model(out@) =~= all.take(0));
    while i < params.len()
        invariant
            i <= params.len(),
            all == entry_args(syntax::pairs(params@), op_code),
            value::values_model(out@) == all.take(i as int),
        decreases params.len() - i,
    {
        let v = synthesize_entry_arg(params[i].1.as_str(), op_code);
        proof {
            value::lemma_values_push(out@, v);
            assert(all[i as int] == v.model());
            assert(all.take(i + 1) =~= all.take(i as int).push(v.model()));
        }
        out.push(v);
        i += 1;
    }
    assert(all.take(i as int) =~= all);
    out
}

/// The states after an entry point has taken the messages from `i` on; the
/// first message of the whole trace is not recorded as a call.
pub open spec fn messages_taken(
    p: Program,
    depth: nat,
    st: State,
    f: Func,
    codes: Seq<i64>,
    i: int,
    first: bool,
) -> Option<State>
    decreases codes.len() - i,
{
    if i >= codes.len() {
        Some(st)
    } else {
        match semantics::call_function(
            p,
            depth,
            st,
            f,
            first && i == 0,
            entry_args(f.params, Some(codes[i])),
        ) {
            None => None,
            Some((st, _)) => messages_taken(p, depth, st, f, codes, i + 1, first),
        }
    }
}

/// The state after a hook, if it is defined, has run: once for each message
/// that the directive lists, or else once.
pub open spec fn hook_run(
    p: Program,
    depth: nat,
    st: State,
    name: Seq<char>,
    codes: Option<Seq<i64>>,
    first: bool,
) -> Option<State> {
    match semantics::function_named(p.funcs, name) {
        None => Some(st),
        Some(i) => match codes {
            Some(list) => if list.len() > 0 {
                messages_taken(p, depth, st, p.funcs[i], list, 0, first)
            } else {
                hook_once(p, depth, st, p.funcs[i], first)
            },
            None => hook_once(p, depth, st, p.funcs[i], first),
        },
    }
}

/// The state after a hook has run without a message.
pub open spec fn hook_once(p: Program, depth: nat, st: State, f: Func, first: bool) -> Option<
    State,
> {
    match semantics::call_function(p, depth, st, f, first, entry_args(f.params, None)) {
        None => None,
        Some((st, _)) => Some(st),
    }
}

/// The state after a program has run from its entry point: `main`, or else the
/// hook for internal messages and then the hook for external ones.
#[verifier::opaque]
pub open spec fn program_run(
    p: Program,
    depth: nat,
    st: State,
    codes: Option<Seq<i64>>,
) -> Result<State, TraceError> {
    let internal = semantics::function_named(p.funcs, "onInternalMessage"@) is Some;
    let external = semantics::function_named(p.funcs, "onExternalMessage"@) is Some;
    match semantics::function_named(p.funcs, "main"@) {
        Some(i) => match semantics::call_function(p, depth, st, p.funcs[i], true, Seq::empty()) {
            None => Err(TraceError::TooDeep),
            Some((st, _)) => Ok(st),
        },
        None => if !internal && !external {
            Err(TraceError::NoEntryPoint)
        } else {
            match hook_run(p, depth, st, "onInternalMessage"@, codes, true) {
                None => Err(TraceError::TooDeep),
                Some(st) => match hook_run(
                    p,
                    depth,
                    st,
                    "onExternalMessage"@,
                    None,
                    !internal,
                ) {
                    None => Err(TraceError::TooDeep),
                    Some(st) => Ok(st),
                },
            }
        },
    }
}

/// The error events of the `throw` and `assert` statements of a block, nested
/// ones too, in the order of the source.
pub open spec fn block_failures(stmts: Seq<Stmt>) -> Seq<Op>
    decreases stmts,
{
    if stmts.len() == 0 {
        Seq::empty()
    } else {
        block_failures(stmts.drop_last()) + stmt_failures(stmts.last())
    }
}

/// The error events of the `throw` and `assert` statements of some arms.
pub open spec fn arms_failures(arms: Seq<Arm>) -> Seq<Op>
    decreases arms,
{
    if arms.len() == 0 {
        Seq::empty()
    } else {
        arms_failures(arms.drop_last()) + block_failures(arms.last().body)
    }
}

/// The error events of the `throw` and `assert` statements in a statement.
pub open spec fn stmt_failures(s: Stmt) -> Seq<Op>
    decreases s,
{
    match s {
        Stmt::Throw { code, .. } => seq![
            semantics::failure_event("TolkThrow"@, "throw "@ + code),
        ],
        Stmt::Assert { code, .. } => seq![
            semantics::failure_event("TolkAssert"@, "assert: code "@ + code),
        ],
        Stmt::If { then_block, else_block, .. } => block_failures(then_block) + block_failures(
            else_block,
        ),
        Stmt::While { body, .. } => block_failures(body),
        Stmt::Repeat { body, .. } => block_failures(body),
        Stmt::DoUntil { body, .. } => block_failures(body),
        Stmt::Match { arms, .. } => arms_failures(arms),
        _ => Seq::empty(),
    }
}

/// The error events of the `throw` and `assert` statements of a program.
pub open spec fn program_failures(funcs: Seq<Func>) -> Seq<Op>
    decreases funcs.len(),
{
    if funcs.len() == 0 {
        Seq::empty()
    } else {
        program_failures(funcs.drop_last()) + block_failures(funcs.last().body)
    }
}

/// The state with more operations.
pub open spec fn extended(st: State, more: Seq<Op>) -> State {
    State { ops: st.ops + more, ..st }
}

/// The state in which a program begins: the common types are registered.
pub open spec fn initial_state() -> State {
    State {
        ops: seq![
            Op::Type { kind: TypeKind::Int, name: "int"@ },
            Op::Type { kind: TypeKind::Int, name: "bool"@ },
            Op::Type { kind: TypeKind::Sequence, name: "Tuple"@ },
        ],
        types: seq!["int"@, "bool"@, "Tuple"@],
        storage: None,
    }
}

/// The operations of the trace of a program: the common types, what the run
/// records, the error events of its failing statements, and the return from
/// the call that encloses the whole.
pub open spec fn trace_of(p: Program, depth: nat, codes: Option<Seq<i64>>) -> Result<
    Seq<Op>,
    TraceError,
> {
    match program_run(p, depth, initial_state(), codes) {
        Err(e) => Err(e),
        Ok(st) => Ok((st.ops + program_failures(p.funcs)).push(Op::Return { value: Rec::Nothing })),
    }
}

impl TolkTracer {
    fn emit_failure(&mut self, metadata: &str, label: &str, code: &str)
        ensures
            final(self).state() == extended(
                old(self).state(),
                seq![semantics::failure_event(metadata@, label@ + code@)],
            ),
            final(self).variants() == old(self).variants(),
    {
        let ghost before = self.state();
        self.emit(
            TraceOp::Event {
                channel: EventKind::Error,
                metadata: metadata.to_owned(),
                content: text::concat2(label, code),
            },
        );
        assert(self.state().ops =~= before.ops + seq![
            semantics::failure_event(metadata@, label@ + code@),
        ]);
    }

    fn emit_stmt_failures(&mut self, stmt: &Statement)
        ensures
            final(self).state() == extended(old(self).state(), stmt_failures(stmt.model())),
            final(self).variants() == old(self).variants(),
        decreases stmt,
    {
        let ghost before = self.state();
        match stmt {
            Statement::Throw { code, line: _ } => {
                self.emit_failure("TolkThrow", "throw ", code.as_str());
            },
            Statement::Assert { condition: _, code, line: _ } => {
                self.emit_failure("TolkAssert", "assert: code ", code.as_str());
            },
            Statement::If { cond: _, then_block, else_block, line: _ } => {
                self.emit_block_failures(then_block);
                self.emit_block_failures(else_block);
                assert(self.state().ops =~= before.ops + stmt_failures(stmt.model()));
            },
            Statement::While { cond: _, body, line: _ } => {
                self.emit_block_failures(body);
            },
            Statement::Repeat { count_expr: _, body, line: _ } => {
                self.emit_block_failures(body);
            },
            Statement::DoUntil { body, cond: _, line: _ } => {
                self.emit_block_failures(body);
            },
            Statement::Match { scrutinee: _, arms, line: _ } => {
                self.emit_arms_failures(arms);
            },
            _ => {
                assert(before.ops + Seq::empty() =~= before.ops);
            },
        }
    }

    fn emit_block_failures(&mut self, stmts: &Vec<Statement>)
        ensures
            final(self).state() == extended(
                old(self).state(),
                block_failures(ast::block_model(stmts@)),
            ),
            final(self).variants() == old(self).variants(),
        decreases stmts,
    {
        let ghost before = self.state();
        let ghost all = ast::block_model(stmts@);
        proof {
            ast::lemma_block_model(stmts@);
            assert(all.take(0) =~= Seq::empty());
            assert(before.ops + Seq::empty() =~= before.ops);
        }
        let mut i: usize = 0;
        while i < stmts.len()
            invariant
                i <= stmts.len(),
                all == ast::block_model(stmts@),
                all.len() == stmts.len(),
                forall|j: int| 0 <= j < stmts.len() ==> #[trigger] all[j] == stmts@[j].model(),
                self.state() == extended(before, block_failures(all.take(i as int))),
                self.variants() == old(self).variants(),
            decreases stmts.len() - i,
        {
            self.emit_stmt_failures(&stmts[i]);
            proof {
                assert(all.take(i + 1).drop_last() =~= all.take(i as int));
                assert(all.take(i + 1).last() == all[i as int]);
                assert(self.state().ops =~= before.ops + block_failures(all.take(i + 1)));
            }
            i += 1;
        }
        assert(all.take(i as int) =~= all);
    }

    fn emit_arms_failures(&mut self, arms: &Vec<MatchArm>)
        ensures
            final(self).state() == extended(
                old(self).state(),
                arms_failures(ast::arms_model(arms@)),
            ),
            final(self).variants() == old(self).variants(),
        decreases arms,
    {
        let ghost before = self.state();
        let ghost all = ast::arms_model(arms@);
        proof {
            ast::lemma_arms_model(arms@);
            assert(all.take(0) =~= Seq::empty());
            assert(before.ops + Seq::empty() =~= before.ops);
        }
        let mut i: usize = 0;
        while i < arms.len()
            invariant
                i <= arms.len(),
                all == ast::arms_model(arms@),
                all.len() == arms.len(),
                forall|j: int| 0 <= j < arms.len() ==> #[trigger] all[j] == arms@[j].model(),
                self.state() == extended(before, arms_failures(all.take(i as int))),
                self.variants() == old(self).variants(),
            decreases arms.len() - i,
        {
            self.emit_block_failures(&arms[i].body);
            proof {
                assert(all.take(i + 1).drop_last() =~= all.take(i as int));
                assert(all.take(i + 1).last() == all[i as int]);
                assert(self.state().ops =~= before.ops + arms_failures(all.take(i + 1)));
            }
            i += 1;
        }
        assert(all.take(i as int) =~= all);
    }

    /// Record one error event for each `throw` and `assert` statement found
    /// anywhere in the program, whether or not it is ever reached.
    pub fn emit_error_events_for_program(&mut self, functions: &Vec<FunctionDef>)
        ensures
            final(self).state() == extended(
                old(self).state(),
                program_failures(ast::funcs_model(functions@)),
            ),
            final(self).variants() == old(self).variants(),
    {
        let ghost before = self.state();
        let ghost all = ast::funcs_model(functions@);
        assert(all.take(0) =~= Seq::empty());
        assert(before.ops + Seq::empty() =~= before.ops);
        let mut i: usize = 0;
        while i < functions.len()
            invariant
                i <= functions.len(),
                all == ast::funcs_model(functions@),
                self.state() == extended(before, program_failures(all.take(i as int))),
                self.variants() == old(self).variants(),
            decreases functions.len() - i,
        {
            self.emit_block_failures(&functions[i].body);
            proof {
                assert(all.take(i + 1).drop_last() =~= all.take(i as int));
                assert(all.take(i + 1).last() == functions@[i as int].model());
                assert(self.state().ops =~= before.ops + program_failures(all.take(i + 1)));
            }
            i += 1;
        }
        assert(all.take(i as int) =~= all);
    }

    fn take_messages(
        &mut self,
        functions: &Vec<FunctionDef>,
        depth: u32,
        func: &FunctionDef,
        codes: &Vec<i64>,
        first: bool,
    ) -> (r: Result<(), TraceError>)
        ensures
            match r {
                Ok(_) => messages_taken(
                    interp::program(functions@, old(self).variants()),
                    depth as nat,
                    old(self).state(),
                    func.model(),
                    codes@,
                    0,
                    first,
                ) == Some(final(self).state()),
                Err(e) => e == TraceError::TooDeep && messages_taken(
                    interp::program(functions@, old(self).variants()),
                    depth as nat,
                    old(self).state(),
                    func.model(),
                    codes@,
                    0,
                    first,
                ) is None,
            },
            final(self).variants() == old(self).variants(),
    {
        let ghost p = interp::program(functions@, self.variants());
        let ghost st0 = self.state();
        let mut i: usize = 0;
        while i < codes.len()
            invariant
                i <= codes.len(),
                p == interp::program(functions@, old(self).variants()),
                self.variants() == old(self).variants(),
                st0 == old(self).state(),
                messages_taken(p, depth as nat, st0, func.model(), codes@, 0, first)
                    == messages_taken(
                    p,
                    depth as nat,
                    self.state(),
                    func.model(),
                    codes@,
                    i as int,
                    first,
                ),
            decreases codes.len() - i,
        {
            let args = make_entry_args(&func.params, Some(codes[i]));
            match self.evaluate_function(functions, depth, func, first && i == 0, &args) {
                Ok(_) => {},
                Err(_) => {
                    return Err(TraceError::TooDeep);
                },
            }
            i += 1;
        }
        Ok(())
    }

    fn run_hook(
        &mut self,
        functions: &Vec<FunctionDef>,
        depth: u32,
        name: &str,
        codes: &Option<Vec<i64>>,
        first: bool,
    ) -> (r: Result<(), TraceError>)
        ensures
            match r {
                Ok(_) => hook_run(
                    interp::program(functions@, old(self).variants()),
                    depth as nat,
                    old(self).state(),
                    name@,
                    codes_view(*codes),
                    first,
                ) == Some(final(self).state()),
                Err(e) => e == TraceError::TooDeep && hook_run(
                    interp::program(functions@, old(self).variants()),
                    depth as nat,
                    old(self).state(),
                    name@,
                    codes_view(*codes),
                    first,
                ) is None,
            },
            final(self).variants() == old(self).variants(),
    {
        let i = match interp::find_function(functions, name) {
            Some(i) => i,
            None => {
                return Ok(());
            },
        };
        let func = &functions[i];
        assert(ast::funcs_model(functions@)[i as int] == func.model());
        if let Some(list) = codes {
            if list.len() > 0 {
                return self.take_messages(functions, depth, func, list, first);
            }
        }
        let args = make_entry_args(&func.params, None);
        match self.evaluate_function(functions, depth, func, first, &args) {
            Ok(_) => Ok(()),
            Err(_) => Err(TraceError::TooDeep),
        }
    }

    /// Run a program from its entry point. `codes` are the operation codes of
    /// the messages that the hook for internal messages takes.
    pub fn evaluate_program(
        &mut self,
        functions: &Vec<FunctionDef>,
        depth: u32,
        codes: &Option<Vec<i64>>,
    ) -> (r: Result<(), TraceError>)
        ensures
            match r {
                Ok(_) => program_run(
                    interp::program(functions@, old(self).variants()),
                    depth as nat,
                    old(self).state(),
                    codes_view(*codes),
                ) == Ok::<State, TraceError>(final(self).state()),
                Err(e) => program_run(
                    interp::program(functions@, old(self).variants()),
                    depth as nat,
                    old(self).state(),
                    codes_view(*codes),
                ) == Err::<State, TraceError>(e),
            },
            final(self).variants() == old(self).variants(),
    {
        proof {
            reveal(program_run);
        }
        if let Some(i) = interp::find_function(functions, "main") {
            let none: Vec<Value> = Vec::new();
            assert(value::values_model(none@) =~= Seq::empty());
            assert(ast::funcs_model(functions@)[i as int] == functions@[i as int].model());
            return match self.evaluate_function(functions, depth, &functions[i], true, &none) {
                Ok(_) => Ok(()),
                Err(_) => Err(TraceError::TooDeep),
            };
        }
        let internal = interp::find_function(functions, "onInternalMessage").is_some();
        let external = interp::find_function(functions, "onExternalMessage").is_some();
        if !internal && !external {
            return Err(TraceError::NoEntryPoint);
        }
        match self.run_hook(functions, depth, "onInternalMessage", codes, true) {
            Ok(_) => {},
            Err(e) => {
                return Err(e);
            },
        }
        self.run_hook(functions, depth, "onExternalMessage", &None, !internal)
    }

    /// A recording in which the common types are registered.
    fn started(variants: NameSet) -> (r: Self)
        ensures
            r.state() == initial_state(),
            r.variants() == variants@,
    {
        let mut tracer = TolkTracer::new(variants);
        let _ = tracer.ensure_type_id(TypeKind::Int, "int");
        let _ = tracer.ensure_type_id(TypeKind::Int, "bool");
        let _ = tracer.ensure_type_id(TypeKind::Sequence, "Tuple");
        proof {
            lemma_initial_types();
        }
        tracer
    }

    /// The operations of the trace of a parsed program. `source_code` is the
    /// entry file, whose directives count.
    fn trace_functions(
        source_code: &str,
        functions: &Vec<FunctionDef>,
        variants: NameSet,
        depth: u32,
    ) -> (r: Result<Vec<TraceOp>, TraceError>)
        ensures
            match r {
                Ok(ops) => trace_of(
                    interp::program(functions@, variants@),
                    depth as nat,
                    directives::messages_of(Some(source_code@)),
                ) == Ok::<Seq<Op>, TraceError>(ops::ops_model(ops@)),
                Err(e) => trace_of(
                    interp::program(functions@, variants@),
                    depth as nat,
                    directives::messages_of(Some(source_code@)),
                ) == Err::<Seq<Op>, TraceError>(e),
            },
    {
        let mut tracer = TolkTracer::started(variants);
        let codes = directives::parse_multi_message_directive(Some(source_code));
        match tracer.evaluate_program(functions, depth, &codes) {
            Ok(_) => {},
            Err(e) => {
                return Err(e);
            },
        }
        tracer.emit_error_events_for_program(functions);
        tracer.emit(TraceOp::Return { value: Record::Nothing });
        Ok(tracer.into_ops())
    }

    /// The operations of the trace of a Tolk program: of its entry file and the
    /// files that it imports, in the order in which they were loaded. `depth`
    /// is how deeply evaluation may nest.
    pub fn trace_program(
        source_path: &str,
        source_code: &str,
        imported: &Vec<SourceFile>,
        depth: u32,
    ) -> (r: Result<Vec<TraceOp>, TraceError>)
        ensures
            match r {
                Ok(ops) => trace_of(
                    parsed_program(source_path@, source_code@, loader::files_view(imported@)),
                    depth as nat,
                    directives::messages_of(Some(source_code@)),
                ) == Ok::<Seq<Op>, TraceError>(ops::ops_model(ops@)),
                Err(e) => trace_of(
                    parsed_program(source_path@, source_code@, loader::files_view(imported@)),
                    depth as nat,
                    directives::messages_of(Some(source_code@)),
                ) == Err::<Seq<Op>, TraceError>(e),
            },
    {
        let mut functions = functions::parse_functions(source_code, source_path);
        let mut variants = directives::parse_variant_constructors(source_code);
        let ghost all = loader::files_view(imported@);
        let ghost own = functions::functions_of(source_code@, source_path@);
        let ghost own_variants = directives::variant_constructors(source_code@);
        proof {
            assert(all.take(0) =~= Seq::empty());
            assert(own + Seq::empty() =~= own);
            assert(own_variants.union(Set::empty()) =~= own_variants);
        }
        let mut i: usize = 0;
        while i < imported.len()
            invariant
                i <= imported.len(),
                all == loader::files_view(imported@),
                ast::funcs_model(functions@) == own + imported_functions(all.take(i as int)),
                variants@ == own_variants.union(imported_variants(all.take(i as int))),
            decreases imported.len() - i,
        {
            let file = &imported[i];
            let mut more = functions::parse_functions(file.source.as_str(), file.path.as_str());
            let ghost before = functions@;
            let ghost added = more@;
            functions.append(&mut more);
            directives::add_variant_constructors(file.source.as_str(), &mut variants);
            proof {
                assert(all.take(i + 1).drop_last() =~= all.take(i as int));
                assert(all.take(i + 1).last() == file@);
                assert(ast::funcs_model(functions@) =~= ast::funcs_model(before) + ast::funcs_model(
                    added,
                ));
                assert(ast::funcs_model(functions@) =~= own + imported_functions(all.take(i + 1)));
                assert(variants@ =~= own_variants.union(imported_variants(all.take(i + 1))));
            }
            i += 1;
        }
        assert(all.take(i as int) =~= all);
        TolkTracer::trace_functions(source_code, &functions, variants, depth)
    }
}

/// The functions of imported files, in order.
pub open spec fn imported_functions(files: Seq<(Seq<char>, Seq<char>)>) -> Seq<Func>
    decreases files.len(),
{
    if files.len() == 0 {
        Seq::empty()
    } else {
        imported_functions(files.drop_last()) + functions::functions_of(
            files.last().1,
            files.last().0,
        )
    }
}

/// The constructors of the unions of imported files.
pub open spec fn imported_variants(files: Seq<(Seq<char>, Seq<char>)>) -> Set<Seq<char>>
    decreases files.len(),
{
    if files.len() == 0 {
        Set::empty()
    } else {
        imported_variants(files.drop_last()).union(
            directives::variant_constructors(files.last().1),
        )
    }
}

/// The program of an entry file and the files that it imports.
pub open spec fn parsed_program(
    path: Seq<char>,
    source: Seq<char>,
    files: Seq<(Seq<char>, Seq<char>)>,
) -> Program {
    Program {
        funcs: functions::functions_of(source, path) + imported_functions(files),
        variants: directives::variant_constructors(source).union(imported_variants(files)),
    }
}

/// The view of a list of operation codes.
pub open spec fn codes_view(codes: Option<Vec<i64>>) -> Option<Seq<i64>> {
    match codes {
        Some(v) => Some(v@),
        None => None,
    }
}

/// The common types are three different names.
proof fn lemma_initial_types()
    ensures
        ({
            let empty = State { ops: Seq::empty(), types: Seq::empty(), storage: None };
            let (a, _) = ops::with_type(empty, TypeKind::Int, "int"@);
            let (b, _) = ops::with_type(a, TypeKind::Int, "bool"@);
            let (c, _) = ops::with_type(b, TypeKind::Sequence, "Tuple"@);
            c == initial_state()
        }),
{
    reveal_strlit("int");
    reveal_strlit("bool");
    reveal_strlit("Tuple");
    reveal_with_fuel(text::first_from, 4);
    let empty = State { ops: Seq::empty(), types: Seq::empty(), storage: None };
    let (a, _) = ops::with_type(empty, TypeKind::Int, "int"@);
    let (b, _) = ops::with_type(a, TypeKind::Int, "bool"@);
    let (c, _) = ops::with_type(b, TypeKind::Sequence, "Tuple"@);
    assert("int"@.len() == 3 && "bool"@.len() == 4 && "Tuple"@.len() == 5);
    assert(c.ops =~= initial_state().ops);
    assert(c.types =~= initial_state().types);
}

} // verus!
