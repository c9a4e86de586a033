//! Tolk functions and statements.

use vstd::prelude::*;

use crate::syntax;
use crate::text;

verus! {

/// Which truth value of its condition makes a gated throw trip.
#[derive(Debug, Clone, Copy, PartialEq, Eq, Structural)]
pub enum GateMode {
    /// `throwIf(code, cond)`: trips on a true condition.
    If,
    /// `throwUnless(code, cond)`: trips on a false condition.
    Unless,
}

/// A statement of a function body. `line` is the 1-based source line.
#[derive(Debug)]
pub enum Statement {
    /// `var name[: type] = expr;`, or with `val`.
    VarBinding { name: String, ty_name: Option<String>, expr: String, line: u32 },
    /// `name = expr;`
    Assign { name: String, expr: String, line: u32 },
    /// `return expr;`
    Return { expr: String, line: u32 },
    /// `throw code;`
    Throw { code: String, line: u32 },
    /// `assert (condition, code);`
    Assert { condition: String, code: String, line: u32 },
    /// `if (cond) { ... } else { ... }`; an `else if` is an `else` block of one
    /// `if`, and the `else` block is empty where there is none.
    If { cond: String, then_block: Vec<Statement>, else_block: Vec<Statement>, line: u32 },
    /// `while (cond) { ... }`
    While { cond: String, body: Vec<Statement>, line: u32 },
    /// `repeat (count) { ... }`; the count is evaluated once.
    Repeat { count_expr: String, body: Vec<Statement>, line: u32 },
    /// `do { ... } until (cond);`
    DoUntil { body: Vec<Statement>, cond: String, line: u32 },
    /// A call made for its effect.
    ExprStatement { expr: String, line: u32 },
    /// `throwIf(code, condition);` or `throwUnless(code, condition);`
    GatedThrow { code: String, condition: String, mode: GateMode, line: u32 },
    /// `match (scrutinee) { Constructor => { ... }; ... }`
    Match { scrutinee: String, arms: Vec<MatchArm>, line: u32 },
}

/// An arm of a `match`: the constructor, the name for its first field, and what
/// to do.
#[derive(Debug)]
pub struct MatchArm {
    pub constructor: String,
    pub payload_binding: Option<String>,
    pub body: Vec<Statement>,
    pub line: u32,
}

/// A function definition.
#[derive(Debug)]
pub struct FunctionDef {
    /// The name; for a method `Type.name`.
    pub name: String,
    /// The declared type of the result.
    pub return_type: Option<String>,
    /// The parameters with their types.
    pub params: Vec<(String, String)>,
    /// The statements.
    pub body: Vec<Statement>,
    /// The 1-based line of the definition.
    pub line: u32,
    /// The number of a `@method_id` attribute.
    pub method_id: Option<i64>,
    /// The file that the function was defined in.
    pub source_path: String,
}

/// The mathematical model of a statement.
#[verifier::ext_equal]
pub enum Stmt {
    VarBinding { name: Seq<char>, ty_name: Option<Seq<char>>, expr: Seq<char>, line: u32 },
    Assign { name: Seq<char>, expr: Seq<char>, line: u32 },
    Return { expr: Seq<char>, line: u32 },
    Throw { code: Seq<char>, line: u32 },
    Assert { condition: Seq<char>, code: Seq<char>, line: u32 },
    If { cond: Seq<char>, then_block: Seq<Stmt>, else_block: Seq<Stmt>, line: u32 },
    While { cond: Seq<char>, body: Seq<Stmt>, line: u32 },
    Repeat { count_expr: Seq<char>, body: Seq<Stmt>, line: u32 },
    DoUntil { body: Seq<Stmt>, cond: Seq<char>, line: u32 },
    ExprStatement { expr: Seq<char>, line: u32 },
    GatedThrow { code: Seq<char>, condition: Seq<char>, mode: GateMode, line: u32 },
    Match { scrutinee: Seq<char>, arms: Seq<Arm>, line: u32 },
}

impl Stmt {
    /// The source line of the statement.
    pub open spec fn line(self) -> u32 {
        match self {
            Stmt::VarBinding { line, .. } => line,
            Stmt::Assign { line, .. } => line,
            Stmt::Return { line, .. } => line,
            Stmt::Throw { line, .. } => line,
            Stmt::Assert { line, .. } => line,
            Stmt::If { line, .. } => line,
            Stmt::While { line, .. } => line,
            Stmt::Repeat { line, .. } => line,
            Stmt::DoUntil { line, .. } => line,
            Stmt::ExprStatement { line, .. } => line,
            Stmt::GatedThrow { line, .. } => line,
            Stmt::Match { line, .. } => line,
        }
    }
}

/// The mathematical model of an arm.
#[verifier::ext_equal]
pub struct Arm {
    pub constructor: Seq<char>,
    pub payload_binding: Option<Seq<char>>,
    pub body: Seq<Stmt>,
    pub line: u32,
}

/// The mathematical model of a function.
#[verifier::ext_equal]
pub struct Func {
    pub name: Seq<char>,
    pub return_type: Option<Seq<char>>,
    pub params: Seq<(Seq<char>, Seq<char>)>,
    pub body: Seq<Stmt>,
    pub line: u32,
    pub method_id: Option<i64>,
    pub source_path: Seq<char>,
}

/// The models of a list of statements.
pub open spec fn block_model(s: Seq<Statement>) -> Seq<Stmt>
    decreases s,
{
    if s.len() == 0 {
        Seq::empty()
    } else {
        block_model(s.drop_last()).push(s.last().model())
    }
}

/// The models of a list of arms.
pub open spec fn arms_model(s: Seq<MatchArm>) -> Seq<Arm>
    decreases s,
{
    if s.len() == 0 {
        Seq::empty()
    } else {
        arms_model(s.drop_last()).push(s.last().model())
    }
}

impl Statement {
    /// The model of the statement.
    pub open spec fn model(self) -> Stmt
        decreases self,
    {
        match self {
            Statement::VarBinding { name, ty_name, expr, line } => Stmt::VarBinding {
                name: name@,
                ty_name: text::opt_text(ty_name),
                expr: expr@,
                line,
            },
            Statement::Assign { name, expr, line } => Stmt::Assign { name: name@, expr: expr@, line },
            Statement::Return { expr, line } => Stmt::Return { expr: expr@, line },
            Statement::Throw { code, line } => Stmt::Throw { code: code@, line },
            Statement::Assert { condition, code, line } => Stmt::Assert {
                condition: condition@,
                code: code@,
                line,
            },
            Statement::If { cond, then_block, else_block, line } => Stmt::If {
                cond: cond@,
                then_block: block_model(then_block@),
                else_block: block_model(else_block@),
                line,
            },
            Statement::While { cond, body, line } => Stmt::While {
                cond: cond@,
                body: block_model(body@),
                line,
            },
            Statement::Repeat { count_expr, body, line } => Stmt::Repeat {
                count_expr: count_expr@,
                body: block_model(body@),
                line,
            },
            Statement::DoUntil { body, cond, line } => Stmt::DoUntil {
                body: block_model(body@),
                cond: cond@,
                line,
            },
            Statement::ExprStatement { expr, line } => Stmt::ExprStatement { expr: expr@, line },
            Statement::GatedThrow { code, condition, mode, line } => Stmt::GatedThrow {
                code: code@,
                condition: condition@,
                mode,
                line,
            },
            Statement::Match { scrutinee, arms, line } => Stmt::Match {
                scrutinee: scrutinee@,
                arms: arms_model(arms@),
                line,
            },
        }
    }
}

impl MatchArm {
    /// The model of the arm.
    pub open spec fn model(self) -> Arm
        decreases self,
    {
        Arm {
            constructor: self.constructor@,
            payload_binding: text::opt_text(self.payload_binding),
            body: block_model(self.body@),
            line: self.line,
        }
    }
}

impl FunctionDef {
    /// The model of the function.
    pub open spec fn model(self) -> Func {
        Func {
            name: self.name@,
            return_type: text::opt_text(self.return_type),
            params: syntax::pairs(self.params@),
            body: block_model(self.body@),
            line: self.line,
            method_id: self.method_id,
            source_path: self.source_path@,
        }
    }
}

/// The models of a list of functions.
pub open spec fn funcs_model(s: Seq<FunctionDef>) -> Seq<Func> {
    s.map_values(|f: FunctionDef| f.model())
}

/// The model of an optional statement.
pub open spec fn opt_stmt(r: Option<Statement>) -> Option<Stmt> {
    match r {
        Some(s) => Some(s.model()),
        None => None,
    }
}

pub proof fn lemma_block_push(s: Seq<Statement>, x: Statement)
    ensures
        block_model(s.push(x)) == block_model(s).push(x.model()),
{
    assert(s.push(x).drop_last() =~= s);
}

pub proof fn lemma_arms_push(s: Seq<MatchArm>, x: MatchArm)
    ensures
        arms_model(s.push(x)) == arms_model(s).push(x.model()),
{
    assert(s.push(x).drop_last() =~= s);
}

pub proof fn lemma_funcs_push(s: Seq<FunctionDef>, x: FunctionDef)
    ensures
        funcs_model(s.push(x)) == funcs_model(s).push(x.model()),
{
    assert(funcs_model(s.push(x)) =~= funcs_model(s).push(x.model()));
}

/// The model of a list is the list of the models.
pub proof fn lemma_block_model(s: Seq<Statement>)
    ensures
        block_model(s).len() == s.len(),
        forall|i: int| 0 <= i < s.len() ==> #[trigger] block_model(s)[i] == s[i].model(),
    decreases s.len(),
{
    if s.len() > 0 {
        lemma_block_model(s.drop_last());
    }
}

/// The model of a list of arms is the list of their models.
pub proof fn lemma_arms_model(s: Seq<MatchArm>)
    ensures
        arms_model(s).len() == s.len(),
        forall|i: int| 0 <= i < s.len() ==> #[trigger] arms_model(s)[i] == s[i].model(),
    decreases s.len(),
{
    if s.len() > 0 {
        lemma_arms_model(s.drop_last());
    }
}

} // verus!
