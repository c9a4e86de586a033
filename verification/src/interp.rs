//! The interpreter: runs Tolk functions and records what they do.

use vstd::prelude::*;

use crate::ast;
use crate::ast::{FunctionDef, GateMode, MatchArm, Statement};
use crate::cells;
use crate::cells::MethodOutcome;
use crate::ops;
use crate::ops::{EventKind, Record, State, TolkTracer, TraceOp};
use crate::rewrite;
use crate::rewrite::Env;
use crate::scope::Scope;
use crate::semantics;
use crate::semantics::{Flow, Out, Program, LOOP_ITERATION_BOUND};
use crate::syntax;
use crate::text;
use crate::tvm;
use crate::value;
use crate::value::{Val, Value};

verus! {

/// Evaluation nested more deeply than it may.
#[derive(Debug)]
pub struct DepthExceeded;

/// How a block of statements ended.
#[derive(Debug)]
pub enum BlockExit {
    /// Behind its last statement.
    Fallthrough,
    /// At a `return`, with its value if that could be evaluated.
    Returned(Option<Value>),
    /// At a failure, which ends every enclosing block too.
    Aborted,
}

impl BlockExit {
    /// The model of the exit.
    pub open spec fn model(self) -> Flow {
        match self {
            BlockExit::Fallthrough => Flow::Fallthrough,
            BlockExit::Returned(v) => Flow::Returned(value::opt_model(v)),
            BlockExit::Aborted => Flow::Aborted,
        }
    }
}

/// The model of a program.
pub open spec fn program(functions: Seq<FunctionDef>, variants: Set<Seq<char>>) -> Program {
    Program { funcs: ast::funcs_model(functions), variants }
}

/// The model of what an evaluation to a value gave.
pub open spec fn value_out(
    r: Result<Option<Value>, DepthExceeded>,
    st: State,
    env: Env,
) -> Out<Option<Val>> {
    match r {
        Ok(v) => Some((st, env, value::opt_model(v))),
        Err(_) => None,
    }
}

/// The model of what an evaluation to an integer gave.
pub open spec fn int_out(
    r: Result<Option<i64>, DepthExceeded>,
    st: State,
    env: Env,
) -> Out<Option<i64>> {
    match r {
        Ok(n) => Some((st, env, n)),
        Err(_) => None,
    }
}

/// The model of what an evaluation of a list gave.
pub open spec fn list_out(
    r: Result<Option<Vec<Value>>, DepthExceeded>,
    st: State,
    env: Env,
) -> Out<Option<Seq<Val>>> {
    match r {
        Ok(Some(v)) => Some((st, env, Some(value::values_model(v@)))),
        Ok(None) => Some((st, env, None)),
        Err(_) => None,
    }
}

/// The model of what an evaluation of fields gave.
pub open spec fn fields_out(
    r: Result<Option<Vec<(String, Value)>>, DepthExceeded>,
    st: State,
    env: Env,
) -> Out<Option<Seq<(Seq<char>, Val)>>> {
    match r {
        Ok(Some(v)) => Some((st, env, Some(value::fields_model(v@)))),
        Ok(None) => Some((st, env, None)),
        Err(_) => None,
    }
}

/// The models of a list of optional values.
pub open spec fn options_model(v: Seq<Option<Value>>) -> Seq<Option<Val>> {
    v.map_values(|o: Option<Value>| value::opt_model(o))
}

/// The model of what an evaluation of each argument gave.
pub open spec fn each_out(
    r: Result<Vec<Option<Value>>, DepthExceeded>,
    st: State,
    env: Env,
) -> Out<Seq<Option<Val>>> {
    match r {
        Ok(v) => Some((st, env, options_model(v@))),
        Err(_) => None,
    }
}

/// The model of what an execution gave.
pub open spec fn flow_out(
    r: Result<BlockExit, DepthExceeded>,
    st: State,
    env: Env,
) -> Out<Flow> {
    match r {
        Ok(exit) => Some((st, env, exit.model())),
        Err(_) => None,
    }
}

/// The function of a name, the last one defined.
pub fn find_function(functions: &Vec<FunctionDef>, name: &str) -> (r: Option<usize>)
    ensures
        text::opt_int(r) == semantics::function_named(ast::funcs_model(functions@), name@),
        r matches Some(i) ==> i < functions@.len(),
{
    let ghost funcs = ast::funcs_model(functions@);
    let mut n: usize = functions.len();
    while n > 0
        invariant
            n <= functions.len(),
            funcs == ast::funcs_model(functions@),
            semantics::function_named(funcs, name@) == text::last_below(
                n as int,
                semantics::has_name(funcs, name@),
            ),
        decreases n,
    {
        n -= 1;
        assert(funcs[n as int].name == functions@[n as int].name@);
        if text::str_eq(functions[n].name.as_str(), name) {
            return Some(n);
        }
    }
    None
}

/// A call of a defined function: its index and its arguments.
fn find_user_call(functions: &Vec<FunctionDef>, x: &str) -> (r: Option<(usize, Vec<String>)>)
    ensures
        match r {
            Some((i, args)) => i < functions@.len() && semantics::user_call(
                ast::funcs_model(functions@),
                x@,
            ) == Some((i as int, text::texts(args@))),
            None => semantics::user_call(ast::funcs_model(functions@), x@) is None,
        },
{
    match syntax::parse_call_with_args(x) {
        Some((name, args)) => match find_function(functions, name) {
            Some(i) => Some((i, args)),
            None => None,
        },
        None => None,
    }
}

/// The value of a context primitive, or the empty builder of `beginCell()`.
fn find_context_value(name: &str) -> (r: Option<Value>)
    ensures
        value::opt_model(r) == semantics::context_value(name@),
{
    if text::str_eq(name, "now") {
        Some(Value::Int(1_700_000_000))
    } else if text::str_eq(name, "myBalance") {
        Some(Value::Coin(2_000_000_000))
    } else if text::str_eq(name, "msgSender") {
        Some(Value::Address { workchain: 0, hash: 0xCAFE })
    } else if text::str_eq(name, "myAddress") {
        Some(Value::Address { workchain: 0, hash: 0xBEEF })
    } else if text::str_eq(name, "beginCell") {
        let refs: Vec<Vec<i64>> = Vec::new();
        assert(value::refs_model(refs@) =~= Seq::empty());
        Some(Value::Builder { payload: Vec::new(), refs })
    } else {
        None
    }
}

/// The cell without contents.
fn new_cell() -> (r: Value)
    ensures
        r.model() == semantics::empty_cell(),
{
    let refs: Vec<Vec<i64>> = Vec::new();
    assert(value::refs_model(refs@) =~= Seq::empty());
    Value::Cell { payload: Vec::new(), refs }
}

/// How an event shows what is stored.
fn summary_of(v: &Value) -> (r: String)
    ensures
        r@ == semantics::data_summary(v.model()),
{
    match v {
        Value::Cell { payload, refs } => value::format_payload_with_refs("Cell", payload, refs),
        Value::Builder { payload, refs } => value::format_payload_with_refs(
            "Builder",
            payload,
            refs,
        ),
        _ => "<non-cell>".to_owned(),
    }
}

/// A value under the declared type of its variable.
fn lift(ty: &Option<String>, v: Value) -> (r: Value)
    ensures
        r.model() == semantics::lifted(text::opt_text(*ty), v.model()),
{
    if let Some(t) = ty {
        if let Value::Int(i) = v {
            if text::str_eq(t.as_str(), "address") {
                return Value::Address { workchain: 0, hash: i };
            }
            if text::str_eq(t.as_str(), "coin") {
                return Value::Coin(i);
            }
        }
    }
    v
}

/// Whether a value counts as true.
fn is_truthy(v: &Option<Value>) -> (b: bool)
    ensures
        b == semantics::truthy(value::opt_model(*v)),
{
    match v {
        Some(v) => match v.as_i64() {
            Some(n) => n != 0,
            None => false,
        },
        None => false,
    }
}

/// How often a `repeat` with this count runs.
fn rounds_of(v: &Option<Value>) -> (n: u32)
    ensures
        n == semantics::repeat_count(value::opt_model(*v)),
{
    let n: i64 = match v {
        Some(v) => match v.as_i64() {
            Some(n) => n,
            None => 0,
        },
        None => 0,
    };
    if n <= 0 {
        0
    } else if n > LOOP_ITERATION_BOUND as i64 {
        LOOP_ITERATION_BOUND
    } else {
        n as u32
    }
}

/// The first arm of a `match` for a tag.
fn choose_arm(arms: &Vec<MatchArm>, tag: &str) -> (r: Option<usize>)
    ensures
        text::opt_int(r) == semantics::chosen_arm(ast::arms_model(arms@), tag@),
        r matches Some(i) ==> i < arms@.len(),
{
    let ghost all = ast::arms_model(arms@);
    proof {
        ast::lemma_arms_model(arms@);
    }
    let mut i: usize = 0;
    while i < arms.len()
        invariant
            i <= arms.len(),
            all == ast::arms_model(arms@),
            all.len() == arms.len(),
            forall|j: int| 0 <= j < arms.len() ==> #[trigger] all[j] == arms@[j].model(),
            semantics::chosen_arm(all, tag@) == text::first_from(
                i as int,
                all.len() as int,
                semantics::arm_for(all, tag@),
            ),
        decreases arms.len() - i,
    {
        assert(all[i as int].constructor == arms@[i as int].constructor@);
        if text::str_eq(arms[i].constructor.as_str(), tag) {
            return Some(i);
        }
        i += 1;
    }
    None
}

/// The environment of a call: the parameters with their arguments.
fn bind_params(params: &Vec<(String, String)>, args: &Vec<Value>) -> (env: Scope<Value>)
    ensures
        rewrite::env_model(env@) == semantics::params_bound(
            syntax::pairs(params@),
            value::values_model(args@),
            semantics::bound_count(syntax::pairs(params@), value::values_model(args@)),
        ),
{
    let ghost ps = syntax::pairs(params@);
    let ghost vs = value::values_model(args@);
    proof {
        value::lemma_values_model(args@);
    }
    let mut env: Scope<Value> = Scope::new();
    assert(rewrite::env_model(env@) =~= Map::empty());
    let mut i: usize = 0;
    while i < params.len() && i < args.len()
        invariant
            i <= params.len(),
            i <= args.len(),
            ps == syntax::pairs(params@),
            vs == value::values_model(args@),
            vs.len() == args.len(),
            forall|j: int| 0 <= j < args.len() ==> #[trigger] vs[j] == args@[j].model(),
            rewrite::env_model(env@) == semantics::params_bound(ps, vs, i as int),
        decreases params.len() - i,
    {
        let v = args[i].duplicate();
        proof {
            rewrite::lemma_env_insert(env@, params@[i as int].0@, v);
            assert(ps[i as int].0 == params@[i as int].0@);
        }
        env.insert(params[i].0.clone(), v);
        i += 1;
    }
    env
}

impl TolkTracer {
    /// The stored cell, with an event.
    fn load_data(&mut self, name: &str) -> (r: Value)
        ensures
            (final(self).state(), r.model()) == semantics::data_loaded(old(self).state(), name@),
            final(self).variants() == old(self).variants(),
    {
        let contents: (Vec<i64>, Vec<Vec<i64>>) = match self.storage() {
            Some(Value::Cell { payload, refs }) => (
                value::copy_ints(payload, 0),
                value::copy_refs(refs, 0),
            ),
            Some(Value::Builder { payload, refs }) => (
                value::copy_ints(payload, 0),
                value::copy_refs(refs, 0),
            ),
            _ => (Vec::new(), Vec::new()),
        };
        let (payload, refs) = contents;
        assert(semantics::stored_contents(self.state().storage).0 =~= payload@);
        assert(semantics::stored_contents(self.state().storage).1 =~= value::refs_model(refs@));
        let summary = value::format_payload_with_refs("Cell", &payload, &refs);
        self.emit(
            TraceOp::Event {
                channel: EventKind::Read,
                metadata: "TolkStorage".to_owned(),
                content: text::concat3(name, ": ", summary.as_str()),
            },
        );
        Value::Cell { payload, refs }
    }

    /// Store a value, with an event.
    fn save_data(&mut self, name: &str, v: Value)
        ensures
            final(self).state() == semantics::data_stored(old(self).state(), name@, v.model()),
            final(self).variants() == old(self).variants(),
    {
        let summary = summary_of(&v);
        self.emit(
            TraceOp::Event {
                channel: EventKind::Write,
                metadata: "TolkStorage".to_owned(),
                content: text::concat3(name, ": ", summary.as_str()),
            },
        );
        self.set_storage(v);
    }

    /// The integer value of an expression on the virtual machine.
    fn machine_value(&mut self, env: &Scope<Value>, x: &str) -> (r: Option<i64>)
        ensures
            (final(self).state(), r) == semantics::machine_value(
                old(self).state(),
                rewrite::env_model(env@),
                x@,
            ),
            final(self).variants() == old(self).variants(),
    {
        let ints = rewrite::value_env_to_i64_map(env);
        match tvm::tvm_eval_expr_checked(x, &ints) {
            Ok(n) => n,
            Err(e) => {
                self.emit(
                    TraceOp::Event {
                        channel: EventKind::Error,
                        metadata: "tvm_exception".to_owned(),
                        content: e.message(),
                    },
                );
                None
            },
        }
    }

    /// Record a step to a line.
    fn step(&mut self, path: &str, line: u32)
        ensures
            final(self).state() == ops::emitted(
                old(self).state(),
                ops::Op::Step { path: path@, line },
            ),
            final(self).variants() == old(self).variants(),
    {
        self.emit(TraceOp::Step { path: path.to_owned(), line });
    }

    /// The record of a variable under its declared type.
    fn record_binding(&mut self, ty: &Option<String>, v: &Value) -> (rec: Record)
        ensures
            (final(self).state(), rec.model()) == semantics::binding_record(
                old(self).state(),
                old(self).variants(),
                text::opt_text(*ty),
                v.model(),
            ),
            final(self).variants() == old(self).variants(),
    {
        match v {
            Value::Int(i) => {
                let declared = match ty {
                    Some(t) => self.find_type(t.as_str()),
                    None => None,
                };
                let type_id = match declared {
                    Some(id) => id,
                    None => self.type_id_or_zero("int"),
                };
                Record::Int { i: *i, type_id }
            },
            _ => self.value_to_record(v),
        }
    }

    /// Bind a variable and record it.
    fn set_variable(&mut self, env: &mut Scope<Value>, name: &str, v: Value, rec: Record) -> (r:
        BlockExit)
        ensures
            semantics::variable_set(
                old(self).state(),
                rewrite::env_model(old(env)@),
                name@,
                v.model(),
                rec.model(),
            ) == Some((final(self).state(), rewrite::env_model(final(env)@), r.model())),
            final(self).variants() == old(self).variants(),
    {
        proof {
            rewrite::lemma_env_insert(env@, name@, v);
        }
        env.insert(name.to_owned(), v);
        self.emit(TraceOp::Variable { name: name.to_owned(), value: rec });
        BlockExit::Fallthrough
    }

    /// Record the arguments of a call.
    fn record_args(&mut self, params: &Vec<(String, String)>, args: &Vec<Value>)
        ensures
            final(self).state() == semantics::args_recorded(
                old(self).state(),
                old(self).variants(),
                syntax::pairs(params@),
                value::values_model(args@),
                0,
            ),
            final(self).variants() == old(self).variants(),
    {
        let ghost ps = syntax::pairs(params@);
        let ghost vs = value::values_model(args@);
        let ghost before = self.state();
        let ghost variants = self.variants();
        proof {
            value::lemma_values_model(args@);
        }
        let mut i: usize = 0;
        while i < params.len()
            invariant
                i <= params.len(),
                ps == syntax::pairs(params@),
                vs == value::values_model(args@),
                vs.len() == args.len(),
                forall|j: int| 0 <= j < args.len() ==> #[trigger] vs[j] == args@[j].model(),
                self.variants() == variants,
                semantics::args_recorded(before, variants, ps, vs, 0) == semantics::args_recorded(
                    self.state(),
                    variants,
                    ps,
                    vs,
                    i as int,
                ),
            decreases params.len() - i,
        {
            let value = if i < args.len() {
                self.value_to_record(&args[i])
            } else {
                Record::Nothing
            };
            assert(ps[i as int].0 == params@[i as int].0@);
            self.emit(TraceOp::Arg { name: params[i].0.clone(), value });
            i += 1;
        }
    }

    /// Register a function and record its call, unless it is the entry point.
    fn open_call(&mut self, func: &FunctionDef, is_entry_point: bool, args: &Vec<Value>)
        ensures
            final(self).state() == semantics::call_opened(
                old(self).state(),
                old(self).variants(),
                func.model(),
                is_entry_point,
                value::values_model(args@),
            ),
            final(self).variants() == old(self).variants(),
    {
        self.emit(
            TraceOp::Function {
                name: func.name.clone(),
                path: func.source_path.clone(),
                line: func.line,
            },
        );
        if !is_entry_point {
            self.record_args(&func.params, args);
            self.emit(TraceOp::Call);
        }
    }

    /// Record the return from a function, unless it is the entry point.
    fn close_call(&mut self, is_entry_point: bool, result: &Option<Value>)
        ensures
            final(self).state() == semantics::call_closed(
                old(self).state(),
                old(self).variants(),
                is_entry_point,
                value::opt_model(*result),
            ),
            final(self).variants() == old(self).variants(),
    {
        if !is_entry_point {
            let value = match result {
                Some(v) => self.value_to_record(v),
                None => Record::Nothing,
            };
            self.emit(TraceOp::Return { value });
        }
    }

    /// Evaluate a function and record it. The entry point is merged into the
    /// call that encloses the whole trace, so neither its call nor its return
    /// is recorded. Arguments without a parameter are ignored.
    pub fn evaluate_function(
        &mut self,
        functions: &Vec<FunctionDef>,
        depth: u32,
        func: &FunctionDef,
        is_entry_point: bool,
        args: &Vec<Value>,
    ) -> (r: Result<Option<Value>, DepthExceeded>)
        ensures
            match r {
                Ok(v) => semantics::call_function(
                    program(functions@, old(self).variants()),
                    depth as nat,
                    old(self).state(),
                    func.model(),
                    is_entry_point,
                    value::values_model(args@),
                ) == Some((final(self).state(), value::opt_model(v))),
                Err(_) => semantics::call_function(
                    program(functions@, old(self).variants()),
                    depth as nat,
                    old(self).state(),
                    func.model(),
                    is_entry_point,
                    value::values_model(args@),
                ) is None,
            },
            final(self).variants() == old(self).variants(),
        decreases depth, 4int, 0int,
    {
        self.open_call(func, is_entry_point, args);
        let mut env = bind_params(&func.params, args);
        let exit = match self.execute_block(
            functions,
            depth,
            &mut env,
            func.source_path.as_str(),
            &func.body,
        ) {
            Ok(exit) => exit,
            Err(e) => {
                return Err(e);
            },
        };
        let result = match exit {
            BlockExit::Returned(v) => v,
            _ => None,
        };
        self.close_call(is_entry_point, &result);
        Ok(result)
    }

    /// Evaluate an expression to an integer. Accesses to integer fields are
    /// resolved first; a call of a function counts if it returns an integer;
    /// everything else is computed by the virtual machine, whose failures are
    /// recorded as events.
    pub fn eval_expr(
        &mut self,
        functions: &Vec<FunctionDef>,
        depth: u32,
        env: &mut Scope<Value>,
        expr: &str,
    ) -> (r: Result<Option<i64>, DepthExceeded>)
        ensures
            int_out(r, final(self).state(), rewrite::env_model(final(env)@)) == semantics::eval_int(
                program(functions@, old(self).variants()),
                depth as nat,
                old(self).state(),
                rewrite::env_model(old(env)@),
                expr@,
            ),
            final(self).variants() == old(self).variants(),
        decreases depth, 5int, 0int,
    {
        let stripped = rewrite::strip_as_casts(expr);
        let y = text::trim(stripped.as_str());
        if y.unicode_len() == 0 {
            return Ok(None);
        }
        let resolved = rewrite::resolve_field_accesses(y, env);
        let x = resolved.as_str();
        if let Some((i, args)) = find_user_call(functions, x) {
            match self.eval_list(functions, depth, env, &args) {
                Err(e) => {
                    return Err(e);
                },
                Ok(Some(vals)) => {
                    return match self.evaluate_function(
                        functions,
                        depth,
                        &functions[i],
                        false,
                        &vals,
                    ) {
                        Err(e) => Err(e),
                        Ok(Some(v)) => Ok(v.as_i64()),
                        Ok(None) => Ok(None),
                    };
                },
                Ok(None) => {},
            }
        }
        Ok(self.machine_value(env, x))
    }

    /// Evaluate the arguments of a call; the first without a value ends it.
    fn eval_list(
        &mut self,
        functions: &Vec<FunctionDef>,
        depth: u32,
        env: &mut Scope<Value>,
        args: &Vec<String>,
    ) -> (r: Result<Option<Vec<Value>>, DepthExceeded>)
        ensures
            list_out(r, final(self).state(), rewrite::env_model(final(env)@))
                == semantics::eval_list(
                program(functions@, old(self).variants()),
                depth as nat,
                old(self).state(),
                rewrite::env_model(old(env)@),
                text::texts(args@),
                0,
                Seq::empty(),
            ),
            final(self).variants() == old(self).variants(),
        decreases depth, 1int, args@.len(),
    {
        let ghost p = program(functions@, self.variants());
        let ghost st0 = self.state();
        let ghost env0 = rewrite::env_model(env@);
        let ghost all = text::texts(args@);
        let mut vals: Vec<Value> = Vec::new();
        let mut i: usize = 0;
        assert(value::values_model(vals@) =~= Seq::empty());
        while i < args.len()
            invariant
                i <= args.len(),
                all == text::texts(args@),
                p == program(functions@, old(self).variants()),
                self.variants() == old(self).variants(),
                st0 == old(self).state(),
                env0 == rewrite::env_model(old(env)@),
                semantics::eval_list(p, depth as nat, st0, env0, all, 0, Seq::empty())
                    == semantics::eval_list(
                    p,
                    depth as nat,
                    self.state(),
                    rewrite::env_model(env@),
                    all,
                    i as int,
                    value::values_model(vals@),
                ),
            decreases args.len() - i,
        {
            assert(all[i as int] == args@[i as int]@);
            match self.eval_expr_to_value(functions, depth, env, args[i].as_str()) {
                Err(e) => {
                    return Err(e);
                },
                Ok(None) => {
                    return Ok(None);
                },
                Ok(Some(v)) => {
                    proof {
                        value::lemma_values_push(vals@, v);
                    }
                    vals.push(v);
                },
            }
            i += 1;
        }
        Ok(Some(vals))
    }

    /// Evaluate a Tolk expression to a value. The first shape that it has
    /// counts: a literal slice; a call of the context, the storage or a
    /// method; a struct or tuple literal; a variable; a field; a call of a
    /// function; integer arithmetic.
    pub fn eval_expr_to_value(
        &mut self,
        functions: &Vec<FunctionDef>,
        depth: u32,
        env: &mut Scope<Value>,
        expr: &str,
    ) -> (r: Result<Option<Value>, DepthExceeded>)
        ensures
            value_out(r, final(self).state(), rewrite::env_model(final(env)@))
                == semantics::eval_value(
                program(functions@, old(self).variants()),
                depth as nat,
                old(self).state(),
                rewrite::env_model(old(env)@),
                expr@,
            ),
            final(self).variants() == old(self).variants(),
        decreases depth, 0int, 0int,
    {
        if depth == 0 {
            return Err(DepthExceeded);
        }
        let stripped = rewrite::strip_as_casts(expr);
        let x = text::trim(stripped.as_str());
        if x.unicode_len() == 0 {
            return Ok(None);
        }
        if let Some(lit) = syntax::parse_slice_literal(x) {
            return Ok(Some(lit));
        }
        match self.try_eval_ton_call(functions, depth - 1, env, x) {
            Err(e) => Err(e),
            Ok(Some(v)) => Ok(Some(v)),
            Ok(None) => self.eval_literal(functions, depth - 1, env, x),
        }
    }

    fn eval_literal(
        &mut self,
        functions: &Vec<FunctionDef>,
        depth: u32,
        env: &mut Scope<Value>,
        x: &str,
    ) -> (r: Result<Option<Value>, DepthExceeded>)
        ensures
            value_out(r, final(self).state(), rewrite::env_model(final(env)@))
                == semantics::eval_literal(
                program(functions@, old(self).variants()),
                depth as nat,
                old(self).state(),
                rewrite::env_model(old(env)@),
                x@,
            ),
            final(self).variants() == old(self).variants(),
        decreases depth, 9int, 0int,
    {
        if let Some((ty_name, fields)) = syntax::parse_struct_literal(x) {
            return match self.eval_fields(functions, depth, env, &fields) {
                Err(e) => Err(e),
                Ok(None) => Ok(None),
                Ok(Some(fields)) => Ok(Some(Value::Struct { ty_name, fields })),
            };
        }
        if let Some(parts) = syntax::parse_tuple_literal(x) {
            return match self.eval_list(functions, depth, env, &parts) {
                Err(e) => Err(e),
                Ok(None) => Ok(None),
                Ok(Some(elements)) => Ok(Some(Value::Tuple(elements))),
            };
        }
        self.eval_access(functions, depth, env, x)
    }

    fn eval_access(
        &mut self,
        functions: &Vec<FunctionDef>,
        depth: u32,
        env: &mut Scope<Value>,
        x: &str,
    ) -> (r: Result<Option<Value>, DepthExceeded>)
        ensures
            value_out(r, final(self).state(), rewrite::env_model(final(env)@))
                == semantics::eval_access(
                program(functions@, old(self).variants()),
                depth as nat,
                old(self).state(),
                rewrite::env_model(old(env)@),
                x@,
            ),
            final(self).variants() == old(self).variants(),
        decreases depth, 8int, 0int,
    {
        if syntax::is_simple_identifier(x) {
            if let Some(v) = env.get(x) {
                return Ok(Some(v.duplicate()));
            }
        }
        if let Some((lhs, field)) = syntax::split_top_level_dot(x) {
            match self.eval_expr_to_value(functions, depth, env, lhs) {
                Err(e) => {
                    return Err(e);
                },
                Ok(Some(base)) => {
                    if let Some(v) = rewrite::project(&base, field) {
                        return Ok(Some(v.duplicate()));
                    }
                },
                Ok(None) => {},
            }
        }
        self.eval_call(functions, depth, env, x)
    }

    fn eval_call(
        &mut self,
        functions: &Vec<FunctionDef>,
        depth: u32,
        env: &mut Scope<Value>,
        x: &str,
    ) -> (r: Result<Option<Value>, DepthExceeded>)
        ensures
            value_out(r, final(self).state(), rewrite::env_model(final(env)@))
                == semantics::eval_call(
                program(functions@, old(self).variants()),
                depth as nat,
                old(self).state(),
                rewrite::env_model(old(env)@),
                x@,
            ),
            final(self).variants() == old(self).variants(),
        decreases depth, 7int, 0int,
    {
        if let Some((i, args)) = find_user_call(functions, x) {
            match self.eval_list(functions, depth, env, &args) {
                Err(e) => {
                    return Err(e);
                },
                Ok(Some(vals)) => {
                    return self.evaluate_function(functions, depth, &functions[i], false, &vals);
                },
                Ok(None) => {},
            }
        }
        match self.eval_expr(functions, depth, env, x) {
            Err(e) => Err(e),
            Ok(Some(n)) => Ok(Some(Value::Int(n))),
            Ok(None) => Ok(None),
        }
    }

    fn eval_fields(
        &mut self,
        functions: &Vec<FunctionDef>,
        depth: u32,
        env: &mut Scope<Value>,
        fields: &Vec<(String, String)>,
    ) -> (r: Result<Option<Vec<(String, Value)>>, DepthExceeded>)
        ensures
            fields_out(r, final(self).state(), rewrite::env_model(final(env)@))
                == semantics::eval_fields(
                program(functions@, old(self).variants()),
                depth as nat,
                old(self).state(),
                rewrite::env_model(old(env)@),
                syntax::pairs(fields@),
                0,
                Seq::empty(),
            ),
            final(self).variants() == old(self).variants(),
        decreases depth, 1int, fields@.len(),
    {
        let ghost p = program(functions@, self.variants());
        let ghost st0 = self.state();
        let ghost env0 = rewrite::env_model(env@);
        let ghost all = syntax::pairs(fields@);
        let mut out: Vec<(String, Value)> = Vec::new();
        let mut i: usize = 0;
        assert(value::fields_model(out@) =~= Seq::empty());
        while i < fields.len()
            invariant
                i <= fields.len(),
                all == syntax::pairs(fields@),
                p == program(functions@, old(self).variants()),
                self.variants() == old(self).variants(),
                st0 == old(self).state(),
                env0 == rewrite::env_model(old(env)@),
                semantics::eval_fields(p, depth as nat, st0, env0, all, 0, Seq::empty())
                    == semantics::eval_fields(
                    p,
                    depth as nat,
                    self.state(),
                    rewrite::env_model(env@),
                    all,
                    i as int,
                    value::fields_model(out@),
                ),
            decreases fields.len() - i,
        {
            assert(all[i as int] == (fields@[i as int].0@, fields@[i as int].1@));
            match self.eval_expr_to_value(functions, depth, env, fields[i].1.as_str()) {
                Err(e) => {
                    return Err(e);
                },
                Ok(None) => {
                    return Ok(None);
                },
                Ok(Some(v)) => {
                    let field: (String, Value) = (fields[i].0.clone(), v);
                    proof {
                        value::lemma_fields_push(out@, field);
                    }
                    out.push(field);
                },
            }
            i += 1;
        }
        Ok(Some(out))
    }

    fn eval_each(
        &mut self,
        functions: &Vec<FunctionDef>,
        depth: u32,
        env: &mut Scope<Value>,
        args: &Vec<String>,
    ) -> (r: Result<Vec<Option<Value>>, DepthExceeded>)
        ensures
            each_out(r, final(self).state(), rewrite::env_model(final(env)@))
                == semantics::eval_each(
                program(functions@, old(self).variants()),
                depth as nat,
                old(self).state(),
                rewrite::env_model(old(env)@),
                text::texts(args@),
                0,
                Seq::empty(),
            ),
            final(self).variants() == old(self).variants(),
        decreases depth, 1int, args@.len(),
    {
        let ghost p = program(functions@, self.variants());
        let ghost st0 = self.state();
        let ghost env0 = rewrite::env_model(env@);
        let ghost all = text::texts(args@);
        let mut out: Vec<Option<Value>> = Vec::new();
        let mut i: usize = 0;
        assert(options_model(out@) =~= Seq::empty());
        while i < args.len()
            invariant
                i <= args.len(),
                all == text::texts(args@),
                p == program(functions@, old(self).variants()),
                self.variants() == old(self).variants(),
                st0 == old(self).state(),
                env0 == rewrite::env_model(old(env)@),
                semantics::eval_each(p, depth as nat, st0, env0, all, 0, Seq::empty())
                    == semantics::eval_each(
                    p,
                    depth as nat,
                    self.state(),
                    rewrite::env_model(env@),
                    all,
                    i as int,
                    options_model(out@),
                ),
            decreases args.len() - i,
        {
            assert(all[i as int] == args@[i as int]@);
            let v = match self.eval_expr_to_value(functions, depth, env, args[i].as_str()) {
                Err(e) => {
                    return Err(e);
                },
                Ok(v) => v,
            };
            let ghost before = options_model(out@);
            out.push(v);
            assert(options_model(out@) =~= before.push(value::opt_model(v)));
            i += 1;
        }
        Ok(out)
    }

    fn complete_args(
        &mut self,
        functions: &Vec<FunctionDef>,
        depth: u32,
        env: &mut Scope<Value>,
        args: &Vec<String>,
        values: &Vec<Option<Value>>,
        base: &Value,
    ) -> (r: Result<Option<Vec<Value>>, DepthExceeded>)
        ensures
            list_out(r, final(self).state(), rewrite::env_model(final(env)@))
                == semantics::complete_args(
                program(functions@, old(self).variants()),
                depth as nat,
                old(self).state(),
                rewrite::env_model(old(env)@),
                text::texts(args@),
                options_model(values@),
                0,
                seq![base.model()],
            ),
            final(self).variants() == old(self).variants(),
        decreases depth, 1int, args@.len(),
    {
        let ghost p = program(functions@, self.variants());
        let ghost st0 = self.state();
        let ghost env0 = rewrite::env_model(env@);
        let ghost all = text::texts(args@);
        let ghost known = options_model(values@);
        let mut vals: Vec<Value> = Vec::new();
        let receiver = base.duplicate();
        proof {
            value::lemma_values_push(vals@, receiver);
        }
        vals.push(receiver);
        assert(value::values_model(vals@) =~= seq![base.model()]);
        let mut i: usize = 0;
        while i < args.len()
            invariant
                i <= args.len(),
                all == text::texts(args@),
                known == options_model(values@),
                p == program(functions@, old(self).variants()),
                self.variants() == old(self).variants(),
                st0 == old(self).state(),
                env0 == rewrite::env_model(old(env)@),
                semantics::complete_args(
                    p,
                    depth as nat,
                    st0,
                    env0,
                    all,
                    known,
                    0,
                    seq![base.model()],
                ) == semantics::complete_args(
                    p,
                    depth as nat,
                    self.state(),
                    rewrite::env_model(env@),
                    all,
                    known,
                    i as int,
                    value::values_model(vals@),
                ),
            decreases args.len() - i,
        {
            assert(all[i as int] == args@[i as int]@);
            let present: Option<Value> = if i < values.len() {
                match &values[i] {
                    Some(v) => Some(v.duplicate()),
                    None => None,
                }
            } else {
                None
            };
            assert(value::opt_model(present) == if i < known.len() {
                known[i as int]
            } else {
                None
            });
            match present {
                Some(v) => {
                    proof {
                        value::lemma_values_push(vals@, v);
                    }
                    vals.push(v);
                },
                None => match self.eval_expr_to_value(functions, depth, env, args[i].as_str()) {
                    Err(e) => {
                        return Err(e);
                    },
                    Ok(None) => {
                        return Ok(None);
                    },
                    Ok(Some(v)) => {
                        proof {
                            value::lemma_values_push(vals@, v);
                        }
                        vals.push(v);
                    },
                },
            }
            i += 1;
        }
        Ok(Some(vals))
    }

    /// Evaluate a call of the context, the storage or a method; no value if
    /// the expression is none of these.
    pub fn try_eval_ton_call(
        &mut self,
        functions: &Vec<FunctionDef>,
        depth: u32,
        env: &mut Scope<Value>,
        x: &str,
    ) -> (r: Result<Option<Value>, DepthExceeded>)
        ensures
            value_out(r, final(self).state(), rewrite::env_model(final(env)@))
                == semantics::ton_call(
                program(functions@, old(self).variants()),
                depth as nat,
                old(self).state(),
                rewrite::env_model(old(env)@),
                x@,
            ),
            final(self).variants() == old(self).variants(),
        decreases depth, 10int, 0int,
    {
        if let Some((name, args)) = syntax::parse_call_with_args(x) {
            assert(text::texts(args@).len() == args@.len());
            if args.len() == 0 {
                if let Some(v) = find_context_value(name) {
                    return Ok(Some(v));
                }
                if text::str_eq(name, "get_data") || text::str_eq(name, "load_data") {
                    return Ok(Some(self.load_data(name)));
                }
            }
            if args.len() == 1 && (text::str_eq(name, "set_data") || text::str_eq(
                name,
                "save_data",
            )) {
                assert(text::texts(args@)[0] == args@[0]@);
                return match self.eval_expr_to_value(functions, depth, env, args[0].as_str()) {
                    Err(e) => Err(e),
                    Ok(Some(v)) => {
                        self.save_data(name, v);
                        Ok(Some(new_cell()))
                    },
                    Ok(None) => Ok(Some(new_cell())),
                };
            }
        }
        self.eval_method_call(functions, depth, env, x)
    }

    fn eval_method_call(
        &mut self,
        functions: &Vec<FunctionDef>,
        depth: u32,
        env: &mut Scope<Value>,
        x: &str,
    ) -> (r: Result<Option<Value>, DepthExceeded>)
        ensures
            value_out(r, final(self).state(), rewrite::env_model(final(env)@))
                == semantics::method_call(
                program(functions@, old(self).variants()),
                depth as nat,
                old(self).state(),
                rewrite::env_model(old(env)@),
                x@,
            ),
            final(self).variants() == old(self).variants(),
        decreases depth, 9int, 0int,
    {
        let (lhs, method, args) = match syntax::parse_method_call(x) {
            Some(call) => call,
            None => {
                return Ok(None);
            },
        };
        let values = match self.eval_each(functions, depth, env, &args) {
            Err(e) => {
                return Err(e);
            },
            Ok(values) => values,
        };
        let base = match self.eval_expr_to_value(functions, depth, env, lhs) {
            Err(e) => {
                return Err(e);
            },
            Ok(None) => {
                return Ok(None);
            },
            Ok(Some(base)) => base,
        };
        self.eval_on_receiver(functions, depth, env, lhs, method, &args, &values, &base)
    }

    fn eval_on_receiver(
        &mut self,
        functions: &Vec<FunctionDef>,
        depth: u32,
        env: &mut Scope<Value>,
        lhs: &str,
        method: &str,
        args: &Vec<String>,
        values: &Vec<Option<Value>>,
        base: &Value,
    ) -> (r: Result<Option<Value>, DepthExceeded>)
        ensures
            value_out(r, final(self).state(), rewrite::env_model(final(env)@))
                == semantics::on_receiver(
                program(functions@, old(self).variants()),
                depth as nat,
                old(self).state(),
                rewrite::env_model(old(env)@),
                lhs@,
                method@,
                text::texts(args@),
                options_model(values@),
                base.model(),
            ),
            final(self).variants() == old(self).variants(),
        decreases depth, 8int, 0int,
    {
        let first: Option<&Value> = if values.len() > 0 {
            match &values[0] {
                Some(v) => Some(v),
                None => None,
            }
        } else {
            None
        };
        assert(cells::ref_model(first) == semantics::first_value(options_model(values@)));
        match cells::apply_method(method, base, first) {
            MethodOutcome::Refused => Ok(None),
            MethodOutcome::Done { result, advanced } => {
                if let Some(next) = advanced {
                    if syntax::is_simple_identifier(lhs) {
                        proof {
                            rewrite::lemma_env_insert(env@, lhs@, next);
                        }
                        env.insert(lhs.to_owned(), next);
                    }
                }
                Ok(Some(result))
            },
            MethodOutcome::Unknown => self.eval_user_method(
                functions,
                depth,
                env,
                method,
                args,
                values,
                base,
            ),
        }
    }

    fn eval_user_method(
        &mut self,
        functions: &Vec<FunctionDef>,
        depth: u32,
        env: &mut Scope<Value>,
        method: &str,
        args: &Vec<String>,
        values: &Vec<Option<Value>>,
        base: &Value,
    ) -> (r: Result<Option<Value>, DepthExceeded>)
        ensures
            value_out(r, final(self).state(), rewrite::env_model(final(env)@))
                == semantics::user_method(
                program(functions@, old(self).variants()),
                depth as nat,
                old(self).state(),
                rewrite::env_model(old(env)@),
                method@,
                text::texts(args@),
                options_model(values@),
                base.model(),
            ),
            final(self).variants() == old(self).variants(),
        decreases depth, 7int, 0int,
    {
        let qualified = match base {
            Value::Struct { ty_name, fields: _ } => text::concat3(ty_name.as_str(), ".", method),
            _ => {
                return Ok(None);
            },
        };
        let i = match find_function(functions, qualified.as_str()) {
            Some(i) => i,
            None => {
                return Ok(None);
            },
        };
        match self.complete_args(functions, depth, env, args, values, base) {
            Err(e) => Err(e),
            Ok(None) => Ok(None),
            Ok(Some(vals)) => self.evaluate_function(
                functions,
                depth,
                &functions[i],
                false,
                &vals,
            ),
        }
    }

    /// Evaluate a condition: any integer but zero is true, and so is no value
    /// false.
    pub fn eval_cond(
        &mut self,
        functions: &Vec<FunctionDef>,
        depth: u32,
        env: &mut Scope<Value>,
        cond: &str,
    ) -> (r: Result<bool, DepthExceeded>)
        ensures
            match (
                r,
                semantics::eval_value(
                    program(functions@, old(self).variants()),
                    depth as nat,
                    old(self).state(),
                    rewrite::env_model(old(env)@),
                    cond@,
                ),
            ) {
                (Ok(b), Some((st, e, v))) => {
                    &&& st == final(self).state()
                    &&& e == rewrite::env_model(final(env)@)
                    &&& b == semantics::truthy(v)
                },
                (Err(_), None) => true,
                _ => false,
            },
            final(self).variants() == old(self).variants(),
        decreases depth, 0int, 1int,
    {
        match self.eval_expr_to_value(functions, depth, env, cond) {
            Err(e) => Err(e),
            Ok(v) => Ok(is_truthy(&v)),
        }
    }

    /// Execute the statements of a block in order, up to the first that does
    /// not fall through.
    pub fn execute_block(
        &mut self,
        functions: &Vec<FunctionDef>,
        depth: u32,
        env: &mut Scope<Value>,
        path: &str,
        stmts: &Vec<Statement>,
    ) -> (r: Result<BlockExit, DepthExceeded>)
        ensures
            flow_out(r, final(self).state(), rewrite::env_model(final(env)@))
                == semantics::exec_block(
                program(functions@, old(self).variants()),
                depth as nat,
                old(self).state(),
                rewrite::env_model(old(env)@),
                path@,
                ast::block_model(stmts@),
                0,
            ),
            final(self).variants() == old(self).variants(),
        decreases depth, 3int, stmts@.len(),
    {
        let ghost p = program(functions@, self.variants());
        let ghost st0 = self.state();
        let ghost env0 = rewrite::env_model(env@);
        let ghost all = ast::block_model(stmts@);
        proof {
            ast::lemma_block_model(stmts@);
        }
        let mut i: usize = 0;
        while i < stmts.len()
            invariant
                i <= stmts.len(),
                all == ast::block_model(stmts@),
                all.len() == stmts.len(),
                forall|j: int| 0 <= j < stmts.len() ==> #[trigger] all[j] == stmts@[j].model(),
                p == program(functions@, old(self).variants()),
                self.variants() == old(self).variants(),
                st0 == old(self).state(),
                env0 == rewrite::env_model(old(env)@),
                semantics::exec_block(p, depth as nat, st0, env0, path@, all, 0)
                    == semantics::exec_block(
                    p,
                    depth as nat,
                    self.state(),
                    rewrite::env_model(env@),
                    path@,
                    all,
                    i as int,
                ),
            decreases stmts.len() - i,
        {
            assert(all[i as int] == stmts@[i as int].model());
            match self.execute_statement(functions, depth, env, path, &stmts[i]) {
                Err(e) => {
                    return Err(e);
                },
                Ok(BlockExit::Fallthrough) => {},
                Ok(other) => {
                    return Ok(other);
                },
            }
            i += 1;
        }
        Ok(BlockExit::Fallthrough)
    }

    fn execute_nested(
        &mut self,
        functions: &Vec<FunctionDef>,
        depth: u32,
        env: &mut Scope<Value>,
        path: &str,
        stmts: &Vec<Statement>,
    ) -> (r: Result<BlockExit, DepthExceeded>)
        ensures
            flow_out(r, final(self).state(), rewrite::env_model(final(env)@))
                == semantics::nested_block(
                program(functions@, old(self).variants()),
                depth as nat,
                old(self).state(),
                rewrite::env_model(old(env)@),
                path@,
                ast::block_model(stmts@),
            ),
            final(self).variants() == old(self).variants(),
        decreases depth, 0int, 0int,
    {
        if depth == 0 {
            return Err(DepthExceeded);
        }
        self.execute_block(functions, depth - 1, env, path, stmts)
    }

    fn run_while(
        &mut self,
        functions: &Vec<FunctionDef>,
        depth: u32,
        env: &mut Scope<Value>,
        path: &str,
        cond: &str,
        body: &Vec<Statement>,
    ) -> (r: Result<BlockExit, DepthExceeded>)
        ensures
            flow_out(r, final(self).state(), rewrite::env_model(final(env)@))
                == semantics::while_loop(
                program(functions@, old(self).variants()),
                depth as nat,
                old(self).state(),
                rewrite::env_model(old(env)@),
                path@,
                cond@,
                ast::block_model(body@),
                LOOP_ITERATION_BOUND as nat,
            ),
            final(self).variants() == old(self).variants(),
        decreases depth, 1int, 0int,
    {
        let ghost p = program(functions@, self.variants());
        let ghost st0 = self.state();
        let ghost env0 = rewrite::env_model(env@);
        let ghost all = ast::block_model(body@);
        let mut n: u32 = LOOP_ITERATION_BOUND;
        while n > 0
            invariant
                n <= LOOP_ITERATION_BOUND,
                all == ast::block_model(body@),
                p == program(functions@, old(self).variants()),
                self.variants() == old(self).variants(),
                st0 == old(self).state(),
                env0 == rewrite::env_model(old(env)@),
                semantics::while_loop(
                    p,
                    depth as nat,
                    st0,
                    env0,
                    path@,
                    cond@,
                    all,
                    LOOP_ITERATION_BOUND as nat,
                ) == semantics::while_loop(
                    p,
                    depth as nat,
                    self.state(),
                    rewrite::env_model(env@),
                    path@,
                    cond@,
                    all,
                    n as nat,
                ),
            decreases n,
        {
            match self.eval_cond(functions, depth, env, cond) {
                Err(e) => {
                    return Err(e);
                },
                Ok(false) => {
                    return Ok(BlockExit::Fallthrough);
                },
                Ok(true) => {},
            }
            match self.execute_nested(functions, depth, env, path, body) {
                Err(e) => {
                    return Err(e);
                },
                Ok(BlockExit::Fallthrough) => {},
                Ok(other) => {
                    return Ok(other);
                },
            }
            n -= 1;
        }
        Ok(BlockExit::Fallthrough)
    }

    fn run_repeat(
        &mut self,
        functions: &Vec<FunctionDef>,
        depth: u32,
        env: &mut Scope<Value>,
        path: &str,
        body: &Vec<Statement>,
        rounds: u32,
    ) -> (r: Result<BlockExit, DepthExceeded>)
        ensures
            flow_out(r, final(self).state(), rewrite::env_model(final(env)@))
                == semantics::repeat_loop(
                program(functions@, old(self).variants()),
                depth as nat,
                old(self).state(),
                rewrite::env_model(old(env)@),
                path@,
                ast::block_model(body@),
                rounds as nat,
            ),
            final(self).variants() == old(self).variants(),
        decreases depth, 1int, 0int,
    {
        let ghost p = program(functions@, self.variants());
        let ghost st0 = self.state();
        let ghost env0 = rewrite::env_model(env@);
        let ghost all = ast::block_model(body@);
        let mut n: u32 = rounds;
        while n > 0
            invariant
                n <= rounds,
                all == ast::block_model(body@),
                p == program(functions@, old(self).variants()),
                self.variants() == old(self).variants(),
                st0 == old(self).state(),
                env0 == rewrite::env_model(old(env)@),
                semantics::repeat_loop(p, depth as nat, st0, env0, path@, all, rounds as nat)
                    == semantics::repeat_loop(
                    p,
                    depth as nat,
                    self.state(),
                    rewrite::env_model(env@),
                    path@,
                    all,
                    n as nat,
                ),
            decreases n,
        {
            match self.execute_nested(functions, depth, env, path, body) {
                Err(e) => {
                    return Err(e);
                },
                Ok(BlockExit::Fallthrough) => {},
                Ok(other) => {
                    return Ok(other);
                },
            }
            n -= 1;
        }
        Ok(BlockExit::Fallthrough)
    }

    fn run_until(
        &mut self,
        functions: &Vec<FunctionDef>,
        depth: u32,
        env: &mut Scope<Value>,
        path: &str,
        cond: &str,
        body: &Vec<Statement>,
    ) -> (r: Result<BlockExit, DepthExceeded>)
        ensures
            flow_out(r, final(self).state(), rewrite::env_model(final(env)@))
                == semantics::until_loop(
                program(functions@, old(self).variants()),
                depth as nat,
                old(self).state(),
                rewrite::env_model(old(env)@),
                path@,
                cond@,
                ast::block_model(body@),
                LOOP_ITERATION_BOUND as nat,
            ),
            final(self).variants() == old(self).variants(),
        decreases depth, 1int, 0int,
    {
        let ghost p = program(functions@, self.variants());
        let ghost st0 = self.state();
        let ghost env0 = rewrite::env_model(env@);
        let ghost all = ast::block_model(body@);
        let mut n: u32 = LOOP_ITERATION_BOUND;
        while n > 0
            invariant
                n <= LOOP_ITERATION_BOUND,
                all == ast::block_model(body@),
                p == program(functions@, old(self).variants()),
                self.variants() == old(self).variants(),
                st0 == old(self).state(),
                env0 == rewrite::env_model(old(env)@),
                semantics::until_loop(
                    p,
                    depth as nat,
                    st0,
                    env0,
                    path@,
                    cond@,
                    all,
                    LOOP_ITERATION_BOUND as nat,
                ) == semantics::until_loop(
                    p,
                    depth as nat,
                    self.state(),
                    rewrite::env_model(env@),
                    path@,
                    cond@,
                    all,
                    n as nat,
                ),
            decreases n,
        {
            match self.execute_nested(functions, depth, env, path, body) {
                Err(e) => {
                    return Err(e);
                },
                Ok(BlockExit::Fallthrough) => {},
                Ok(other) => {
                    return Ok(other);
                },
            }
            match self.eval_cond(functions, depth, env, cond) {
                Err(e) => {
                    return Err(e);
                },
                Ok(true) => {
                    return Ok(BlockExit::Fallthrough);
                },
                Ok(false) => {},
            }
            n -= 1;
        }
        Ok(BlockExit::Fallthrough)
    }

    fn execute_match(
        &mut self,
        functions: &Vec<FunctionDef>,
        depth: u32,
        env: &mut Scope<Value>,
        path: &str,
        scrutinee: &str,
        arms: &Vec<MatchArm>,
        line: u32,
    ) -> (r: Result<BlockExit, DepthExceeded>)
        ensures
            flow_out(r, final(self).state(), rewrite::env_model(final(env)@))
                == semantics::exec_stmt(
                program(functions@, old(self).variants()),
                depth as nat,
                old(self).state(),
                rewrite::env_model(old(env)@),
                path@,
                ast::Stmt::Match { scrutinee: scrutinee@, arms: ast::arms_model(arms@), line },
            ),
            final(self).variants() == old(self).variants(),
        decreases depth, 1int, 0int,
    {
        self.step(path, line);
        let v = match self.eval_expr_to_value(functions, depth, env, scrutinee) {
            Err(e) => {
                return Err(e);
            },
            Ok(v) => v,
        };
        let (ty_name, fields) = match v {
            Some(Value::Struct { ty_name, fields }) => (ty_name, fields),
            _ => {
                return Ok(BlockExit::Fallthrough);
            },
        };
        let i = match choose_arm(arms, ty_name.as_str()) {
            Some(i) => i,
            None => {
                return Ok(BlockExit::Fallthrough);
            },
        };
        proof {
            ast::lemma_arms_model(arms@);
            value::lemma_fields_model(fields@);
        }
        let arm = &arms[i];
        let binder = match &arm.payload_binding {
            Some(binder) => binder,
            None => {
                return self.execute_nested(functions, depth, env, path, &arm.body);
            },
        };
        if fields.len() == 0 {
            return self.execute_nested(functions, depth, env, path, &arm.body);
        }
        let first = fields[0].1.duplicate();
        let ghost outer = rewrite::env_model(env@);
        proof {
            rewrite::lemma_env_remove(env@, binder@);
            rewrite::lemma_env_insert(env@.remove(binder@), binder@, first);
            assert(value::fields_model(fields@)[0] == (fields@[0].0@, fields@[0].1.model()));
        }
        let shadowed = env.remove(binder.as_str());
        env.insert(binder.clone(), first);
        assert(rewrite::env_model(env@) =~= outer.insert(binder@, first.model()));
        let exit = match self.execute_nested(functions, depth, env, path, &arm.body) {
            Ok(exit) => exit,
            Err(e) => {
                return Err(e);
            },
        };
        let ghost inner = rewrite::env_model(env@);
        proof {
            rewrite::lemma_env_remove(env@, binder@);
        }
        let _ = env.remove(binder.as_str());
        if let Some(v) = shadowed {
            proof {
                rewrite::lemma_env_insert(env@, binder@, v);
            }
            env.insert(binder.clone(), v);
            assert(rewrite::env_model(env@) =~= inner.insert(binder@, outer[binder@]));
        }
        Ok(exit)
    }

    /// Execute a single statement.
    pub fn execute_statement(
        &mut self,
        functions: &Vec<FunctionDef>,
        depth: u32,
        env: &mut Scope<Value>,
        path: &str,
        stmt: &Statement,
    ) -> (r: Result<BlockExit, DepthExceeded>)
        ensures
            flow_out(r, final(self).state(), rewrite::env_model(final(env)@))
                == semantics::exec_stmt(
                program(functions@, old(self).variants()),
                depth as nat,
                old(self).state(),
                rewrite::env_model(old(env)@),
                path@,
                stmt.model(),
            ),
            final(self).variants() == old(self).variants(),
        decreases depth, 2int, 0int,
    {
        match stmt {
            Statement::VarBinding { name, ty_name, expr, line } => {
                self.step(path, *line);
                match self.eval_expr_to_value(functions, depth, env, expr.as_str()) {
                    Err(e) => Err(e),
                    Ok(None) => Ok(BlockExit::Fallthrough),
                    Ok(Some(raw)) => {
                        let v = lift(ty_name, raw);
                        let rec = self.record_binding(ty_name, &v);
                        Ok(self.set_variable(env, name.as_str(), v, rec))
                    },
                }
            },
            Statement::Assign { name, expr, line } => {
                self.step(path, *line);
                match self.eval_expr_to_value(functions, depth, env, expr.as_str()) {
                    Err(e) => Err(e),
                    Ok(None) => Ok(BlockExit::Fallthrough),
                    Ok(Some(v)) => {
                        let rec = self.value_to_record(&v);
                        Ok(self.set_variable(env, name.as_str(), v, rec))
                    },
                }
            },
            Statement::Return { expr, line } => {
                self.step(path, *line);
                match self.eval_expr_to_value(functions, depth, env, expr.as_str()) {
                    Err(e) => Err(e),
                    Ok(v) => Ok(BlockExit::Returned(v)),
                }
            },
            Statement::Throw { .. } | Statement::Assert { .. } => Ok(BlockExit::Aborted),
            Statement::If { cond, then_block, else_block, line } => {
                self.step(path, *line);
                match self.eval_cond(functions, depth, env, cond.as_str()) {
                    Err(e) => Err(e),
                    Ok(true) => self.execute_nested(functions, depth, env, path, then_block),
                    Ok(false) => self.execute_nested(functions, depth, env, path, else_block),
                }
            },
            Statement::While { cond, body, line } => {
                self.step(path, *line);
                self.run_while(functions, depth, env, path, cond.as_str(), body)
            },
            Statement::Repeat { count_expr, body, line } => {
                self.step(path, *line);
                match self.eval_expr_to_value(functions, depth, env, count_expr.as_str()) {
                    Err(e) => Err(e),
                    Ok(v) => {
                        let rounds = rounds_of(&v);
                        self.run_repeat(functions, depth, env, path, body, rounds)
                    },
                }
            },
            Statement::DoUntil { body, cond, line } => {
                self.step(path, *line);
                self.run_until(functions, depth, env, path, cond.as_str(), body)
            },
            Statement::ExprStatement { expr, line } => {
                self.step(path, *line);
                match self.eval_expr_to_value(functions, depth, env, expr.as_str()) {
                    Err(e) => Err(e),
                    Ok(_) => Ok(BlockExit::Fallthrough),
                }
            },
            Statement::GatedThrow { code, condition, mode, line } => {
                self.step(path, *line);
                match self.eval_cond(functions, depth, env, condition.as_str()) {
                    Err(e) => Err(e),
                    Ok(cond) => {
                        let (tripped, label) = match mode {
                            GateMode::If => (cond, "throwIf"),
                            GateMode::Unless => (!cond, "throwUnless"),
                        };
                        if tripped {
                            self.emit(
                                TraceOp::Event {
                                    channel: EventKind::Error,
                                    metadata: "TolkThrow".to_owned(),
                                    content: text::concat3(label, ": code ", code.as_str()),
                                },
                            );
                            Ok(BlockExit::Aborted)
                        } else {
                            Ok(BlockExit::Fallthrough)
                        }
                    },
                }
            },
            Statement::Match { scrutinee, arms, line } => self.execute_match(
                functions,
                depth,
                env,
                path,
                scrutinee.as_str(),
                arms,
                *line,
            ),
        }
    }
}

} // verus!
