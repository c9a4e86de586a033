//! Evaluation of integer expressions on the TON virtual machine of `tycho-vm`.
//!
//! An expression is parsed, compiled to TVM instructions and run; the integer
//! that the machine leaves on top of its stack is the value.

use vstd::prelude::*;

use tycho_vm::__export::tycho_types::cell::{Cell, CellBuilder};

use crate::expr;
use crate::expr::{BinOp, Expr, UnOp};
use crate::numeral;
use crate::numeral::IntError;
use crate::scope::Scope;
use crate::text;

verus! {

/// The gas that a run may use.
pub const GAS_LIMIT: u64 = 1_000_000;

/// The whole bytes that fit into one cell.
pub const CELL_BYTES: usize = 127;

/// A builder of cells of `tycho-types`.
#[verifier::external_type_specification]
#[verifier::external_body]
pub struct ExCellBuilder(CellBuilder);

/// A cell of `tycho-types`.
#[verifier::external_type_specification]
#[verifier::external_body]
pub struct ExCell(Cell);

/// The bytes of a builder of an ordinary cell that holds whole bytes and no
/// references; `None` for every other builder.
pub uninterp spec fn builder_bytes(b: CellBuilder) -> Option<Seq<u8>>;

/// The bytes of an ordinary cell that holds whole bytes and no references;
/// `None` for every other cell.
pub uninterp spec fn cell_bytes(c: Cell) -> Option<Seq<u8>>;

/// What the virtual machine does with a code of these bytes under a gas limit:
/// the number that `VmState::run` returns, the top of the final stack as
/// `display_list` shows it, and what was written to the debug output.
pub uninterp spec fn vm_run(code: Seq<u8>, gas: u64) -> (i32, Option<Seq<char>>, Seq<char>);

/// `CellBuilder::new`: the builder of an ordinary cell without any data.
#[verifier::external_body]
fn new_builder() -> (b: CellBuilder)
    ensures
        builder_bytes(b) == Some(Seq::<u8>::empty()),
{
    CellBuilder::new()
}

/// `CellBuilder::store_u8`: appends eight bits while the data stays within the
/// 1023 bits of a cell, and otherwise fails and leaves the builder as it was.
#[verifier::external_body]
fn store_byte(b: &mut CellBuilder, byte: u8) -> (stored: bool)
    requires
        builder_bytes(*old(b)) is Some,
    ensures
        stored == (builder_bytes(*old(b))->0.len() < 127),
        builder_bytes(*final(b)) == Some(
            if stored {
                builder_bytes(*old(b))->0.push(byte)
            } else {
                builder_bytes(*old(b))->0
            },
        ),
{
    b.store_u8(byte).is_ok()
}

/// `CellBuilder::build`: an ordinary cell without references always builds, and
/// holds the bytes of the builder.
#[verifier::external_body]
fn finish_builder(b: CellBuilder) -> (c: Option<Cell>)
    requires
        builder_bytes(b) is Some,
    ensures
        c is Some,
        cell_bytes(c->0) == builder_bytes(b),
{
    b.build().ok()
}

/// What came out of a run of the virtual machine.
#[derive(Debug)]
pub struct VmRun {
    /// The number that the run returned.
    pub raw: i32,
    /// The top of the final stack as text, if the stack is not empty.
    pub top: Option<String>,
    /// The debug output.
    pub debug: String,
}

impl View for VmRun {
    type V = (i32, Option<Seq<char>>, Seq<char>);

    open spec fn view(&self) -> (i32, Option<Seq<char>>, Seq<char>) {
        (self.raw, text::opt_text(self.top), self.debug@)
    }
}

/// `VmState::run` on a state that `VmState::builder` makes of the code, with a
/// gas limit and no libraries; then `display_list` on the top of the stack.
/// What comes out depends on the code and the gas limit alone. Which number and
/// which top a given code leads to is left to the name `vm_run`; `machine`
/// models the instructions that expressions compile to.
#[verifier::external_body]
fn execute(cell: Cell, gas: u64) -> (r: VmRun)
    requires
        cell_bytes(cell) is Some,
        gas <= GAS_LIMIT,
    ensures
        r@ == vm_run(cell_bytes(cell)->0, gas),
{
    let mut debug = String::new();
    let mut vm = tycho_vm::VmState::builder()
        .with_code(cell)
        .with_debug(&mut debug)
        .with_gas(tycho_vm::GasParams { max: gas, limit: gas, credit: 0, ..tycho_vm::GasParams::getter() })
        .with_libraries(&tycho_vm::NoLibraries)
        .build();
    let raw = vm.run();
    let top = vm.stack.items.last().map(|v| v.display_list().to_string());
    drop(vm);
    VmRun { raw, top, debug }
}

/// A cell that holds the code of a program.
pub struct CodeCell {
    cell: Cell,
}

impl CodeCell {
    #[verifier::type_invariant]
    spec fn inv(self) -> bool {
        cell_bytes(self.cell) is Some
    }
}

impl View for CodeCell {
    type V = Seq<u8>;

    closed spec fn view(&self) -> Seq<u8> {
        cell_bytes(self.cell)->0
    }
}

/// Why an expression has no value on the machine.
#[derive(Debug)]
pub enum TvmError {
    /// The code does not fit into one cell.
    CodeTooLong,
    /// The run ended with an exit code other than zero.
    Failed { exit_code: i32, raw: i32, debug: String },
    /// The run left nothing on the stack.
    EmptyStack,
    /// The top of the stack is no `i64`.
    NotAnInteger { shown: String, cause: IntError },
}

/// The view of an error: as the error, with texts as sequences.
#[verifier::ext_equal]
pub enum TvmFault {
    CodeTooLong,
    Failed { exit_code: int, raw: int, debug: Seq<char> },
    EmptyStack,
    NotAnInteger { shown: Seq<char>, cause: IntError },
}

impl View for TvmError {
    type V = TvmFault;

    open spec fn view(&self) -> TvmFault {
        match *self {
            TvmError::CodeTooLong => TvmFault::CodeTooLong,
            TvmError::Failed { exit_code, raw, debug } => TvmFault::Failed {
                exit_code: exit_code as int,
                raw: raw as int,
                debug: debug@,
            },
            TvmError::EmptyStack => TvmFault::EmptyStack,
            TvmError::NotAnInteger { shown, cause } => TvmFault::NotAnInteger {
                shown: shown@,
                cause,
            },
        }
    }
}

/// What an error says.
pub open spec fn fault_text(f: TvmFault) -> Seq<char> {
    match f {
        TvmFault::CodeTooLong => "failed to store opcode byte: cell overflow"@,
        TvmFault::Failed { exit_code, raw, debug } => "TVM execution failed with exit code "@
            + numeral::int_text(exit_code) + " (raw: "@ + numeral::int_text(raw) + "), debug: "@
            + debug,
        TvmFault::EmptyStack => "TVM stack is empty after execution"@,
        TvmFault::NotAnInteger { shown, cause } => "failed to parse TVM stack value '"@ + shown
            + "' as i64: "@ + numeral::int_error_text(cause),
    }
}

impl TvmError {
    /// The message of the error.
    pub fn message(&self) -> (r: String)
        ensures
            r@ == fault_text(self@),
    {
        match self {
            TvmError::CodeTooLong => "failed to store opcode byte: cell overflow".to_owned(),
            TvmError::Failed { exit_code, raw, debug } => {
                let mut r = text::concat2(
                    "TVM execution failed with exit code ",
                    numeral::i64_to_string(*exit_code as i64).as_str(),
                );
                r.append(" (raw: ");
                r.append(numeral::i64_to_string(*raw as i64).as_str());
                r.append("), debug: ");
                r.append(debug.as_str());
                r
            },
            TvmError::EmptyStack => "TVM stack is empty after execution".to_owned(),
            TvmError::NotAnInteger { shown, cause } => {
                let mut r = text::concat2("failed to parse TVM stack value '", shown.as_str());
                r.append("' as i64: ");
                r.append(cause.message());
                r
            },
        }
    }
}

/// A program under construction: the bytes of its instructions.
#[derive(Debug)]
pub struct TvmProgram {
    bytes: Vec<u8>,
}

impl View for TvmProgram {
    type V = Seq<u8>;

    closed spec fn view(&self) -> Seq<u8> {
        self.bytes@
    }
}

/// `n / 127`, rounded towards zero.
pub open spec fn quotient127(n: int) -> int {
    if n >= 0 {
        n / 127
    } else {
        -((-n) / 127)
    }
}

/// The absolute value of `n`.
pub open spec fn magnitude(n: int) -> nat {
    if n >= 0 {
        n as nat
    } else {
        (-n) as nat
    }
}

/// The instructions that push `n`: `PUSHINT` in its four-bit, eight-bit or
/// sixteen-bit form, and beyond that `n` as `q * 127 + r`.
pub open spec fn push_code(n: int) -> Seq<u8>
    decreases magnitude(n),
{
    if -5 <= n <= 10 {
        seq![(0x70 + n % 16) as u8]
    } else if -128 <= n <= 127 {
        seq![0x80, (n % 256) as u8]
    } else if -32768 <= n <= 32767 {
        seq![0x81, ((n / 256) % 256) as u8, (n % 256) as u8]
    } else {
        let q = quotient127(n);
        let r = n - 127 * q;
        let product = push_code(q) + push_code(127) + seq![0xa8u8];
        if r == 0 {
            product
        } else {
            product + push_code(r) + seq![0xa0u8]
        }
    }
}

/// The instructions of a binary operator. A comparison leaves `-1` for true,
/// which `NEGATE` makes `1`.
pub open spec fn op_code(op: BinOp) -> Seq<u8> {
    match op {
        BinOp::Add => seq![0xa0u8],
        BinOp::Sub => seq![0xa1u8],
        BinOp::Mul => seq![0xa8u8],
        BinOp::Div => seq![0xa9u8, 0x04u8],
        BinOp::Mod => seq![0xa9u8, 0x08u8],
        BinOp::BitAnd => seq![0xb0u8],
        BinOp::BitOr => seq![0xb1u8],
        BinOp::BitXor => seq![0xb2u8],
        BinOp::Shl => seq![0xacu8],
        BinOp::Shr => seq![0xadu8],
        BinOp::Eq => seq![0xbau8, 0xa3u8],
        BinOp::Neq => seq![0xbdu8, 0xa3u8],
        BinOp::Lt => seq![0xb9u8, 0xa3u8],
        BinOp::Gt => seq![0xbcu8, 0xa3u8],
        BinOp::Leq => seq![0xbbu8, 0xa3u8],
        BinOp::Geq => seq![0xbeu8, 0xa3u8],
    }
}

/// The instruction of a unary operator.
pub open spec fn sign_code(op: UnOp) -> Seq<u8> {
    match op {
        UnOp::Neg => seq![0xa3u8],
        UnOp::Not => seq![0xb3u8],
    }
}

/// The code of an expression, operands first.
pub open spec fn code_of(e: Expr) -> Seq<u8>
    decreases e,
{
    match e {
        Expr::Literal(n) => push_code(n as int),
        Expr::UnOp { sign, operand } => code_of(*operand) + sign_code(sign),
        Expr::BinOp { op, left, right } => code_of(*left) + code_of(*right) + op_code(op),
    }
}

impl TvmProgram {
    /// The program without instructions.
    pub fn new() -> (p: Self)
        ensures
            p@ == Seq::<u8>::empty(),
    {
        TvmProgram { bytes: Vec::new() }
    }

    /// Append one byte.
    fn emit(&mut self, byte: u8)
        ensures
            final(self)@ == old(self)@.push(byte),
    {
        self.bytes.push(byte);
    }

    /// `PUSHINT n`: push an integer onto the stack.
    ///
    /// - tiny (`-5..=10`): `0x7x` where `x` is the low half-byte of `n`
    /// - 8-bit signed: `0x80`, i8
    /// - 16-bit signed: `0x81`, i16 big-endian
    /// - beyond: the quotient by 127, times 127, plus the remainder
    pub fn push_int(&mut self, n: i64)
        ensures
            final(self)@ == old(self)@ + push_code(n as int),
        decreases magnitude(n as int),
    {
        let ghost before = self@;
        if -5 <= n && n <= 10 {
            let low: u8 = if n < 0 {
                (n + 16) as u8
            } else {
                n as u8
            };
            self.emit(0x70 + low);
            assert(self@ =~= before + push_code(n as int));
        } else if -128 <= n && n <= 127 {
            let low: u8 = if n < 0 {
                (n + 256) as u8
            } else {
                n as u8
            };
            self.emit(0x80);
            self.emit(low);
            assert(self@ =~= before + push_code(n as int));
        } else if -32768 <= n && n <= 32767 {
            let word: u32 = if n < 0 {
                (n + 65536) as u32
            } else {
                n as u32
            };
            self.emit(0x81);
            self.emit((word / 256) as u8);
            self.emit((word % 256) as u8);
            assert(self@ =~= before + push_code(n as int));
        } else {
            let q: i64 = if n >= 0 {
                n / 127
            } else {
                (-((-(n as i128)) / 127)) as i64
            };
            let r: i64 = n - 127 * q;
            self.push_int(q);
            self.push_int(127);
            self.emit(0xa8);
            if r != 0 {
                self.push_int(r);
                self.emit(0xa0);
            }
            assert(self@ =~= before + push_code(n as int));
        }
    }

    /// `ADD`: pop two integers, push their sum.
    pub fn add(&mut self)
        ensures
            final(self)@ == old(self)@.push(0xa0),
    {
        self.emit(0xa0);
    }

    /// `SUB`: pop two integers, push the first less the second.
    pub fn sub(&mut self)
        ensures
            final(self)@ == old(self)@.push(0xa1),
    {
        self.emit(0xa1);
    }

    /// `MUL`: pop two integers, push their product.
    pub fn mul(&mut self)
        ensures
            final(self)@ == old(self)@.push(0xa8),
    {
        self.emit(0xa8);
    }

    /// Put the code into a cell. Fails if and only if it does not fit.
    pub fn build_cell(&self) -> (r: Result<CodeCell, TvmError>)
        ensures
            match r {
                Ok(cell) => self@.len() <= CELL_BYTES && cell@ == self@,
                Err(e) => self@.len() > CELL_BYTES && e@ == TvmFault::CodeTooLong,
            },
    {
        let mut builder = new_builder();
        let mut i: usize = 0;
        while i < self.bytes.len()
            invariant
                i <= self.bytes.len(),
                i <= 127,
                builder_bytes(builder) is Some,
                builder_bytes(builder)->0 =~= self.bytes@.take(i as int),
            decreases self.bytes.len() - i,
        {
            if !store_byte(&mut builder, self.bytes[i]) {
                return Err(TvmError::CodeTooLong);
            }
            i += 1;
        }
        assert(self.bytes@.take(i as int) =~= self@);
        match finish_builder(builder) {
            Some(cell) => Ok(CodeCell { cell }),
            None => Err(TvmError::CodeTooLong),
        }
    }
}

/// Compile an expression, operands first.
pub fn compile_ast(expr: &Expr, program: &mut TvmProgram)
    ensures
        final(program)@ == old(program)@ + code_of(*expr),
    decreases expr,
{
    let ghost before = program@;
    match expr {
        Expr::Literal(n) => {
            program.push_int(*n);
        },
        Expr::UnOp { sign, operand } => {
            compile_ast(operand, program);
            match sign {
                UnOp::Neg => program.emit(0xa3),
                UnOp::Not => program.emit(0xb3),
            }
            assert(program@ =~= before + code_of(*expr));
        },
        Expr::BinOp { op, left, right } => {
            compile_ast(left, program);
            compile_ast(right, program);
            match op {
                BinOp::Add => program.add(),
                BinOp::Sub => program.sub(),
                BinOp::Mul => program.mul(),
                BinOp::Div => {
                    program.emit(0xa9);
                    program.emit(0x04);
                },
                BinOp::Mod => {
                    program.emit(0xa9);
                    program.emit(0x08);
                },
                BinOp::BitAnd => program.emit(0xb0),
                BinOp::BitOr => program.emit(0xb1),
                BinOp::BitXor => program.emit(0xb2),
                BinOp::Shl => program.emit(0xac),
                BinOp::Shr => program.emit(0xad),
                BinOp::Eq => program.emit(0xba),
                BinOp::Neq => program.emit(0xbd),
                BinOp::Lt => program.emit(0xb9),
                BinOp::Gt => program.emit(0xbc),
                BinOp::Leq => program.emit(0xbb),
                BinOp::Geq => program.emit(0xbe),
            }
            match op {
                BinOp::Eq
                | BinOp::Neq
                | BinOp::Lt
                | BinOp::Gt
                | BinOp::Leq
                | BinOp::Geq => program.emit(0xa3),
                _ => {},
            }
            assert(program@ =~= before + code_of(*expr));
        },
    }
}

/// The integer that a shown stack value writes.
pub open spec fn shown_value(shown: Seq<char>) -> Result<int, TvmFault> {
    match numeral::i64_value(text::trimmed(shown)) {
        Ok(n) => Ok(n),
        Err(cause) => Err(TvmFault::NotAnInteger { shown, cause }),
    }
}

/// The integer that a run computed. The run returns the exit code
/// complemented, so that `-1` stands for the normal end.
pub open spec fn run_value(run: (i32, Option<Seq<char>>, Seq<char>)) -> Result<int, TvmFault> {
    let exit_code = -1 - run.0;
    if exit_code != 0 {
        Err(TvmFault::Failed { exit_code, raw: run.0 as int, debug: run.2 })
    } else {
        match run.1 {
            None => Err(TvmFault::EmptyStack),
            Some(shown) => shown_value(shown),
        }
    }
}

/// The view of a result.
pub open spec fn value_view(r: Result<i64, TvmError>) -> Result<int, TvmFault> {
    match r {
        Ok(n) => Ok(n as int),
        Err(e) => Err(e@),
    }
}

/// The integer that a stack value shows.
pub fn extract_int_from_stack_value(shown: &str) -> (r: Result<i64, TvmError>)
    ensures
        value_view(r) == shown_value(shown@),
{
    match numeral::parse_i64(text::trim(shown)) {
        Ok(n) => Ok(n),
        Err(cause) => Err(TvmError::NotAnInteger { shown: shown.to_owned(), cause }),
    }
}

/// The integer that a run computed.
pub fn interpret_run(run: VmRun) -> (r: Result<i64, TvmError>)
    ensures
        value_view(r) == run_value(run@),
{
    let exit_code: i32 = -1 - run.raw;
    if exit_code != 0 {
        return Err(TvmError::Failed { exit_code, raw: run.raw, debug: run.debug });
    }
    match run.top {
        None => Err(TvmError::EmptyStack),
        Some(shown) => extract_int_from_stack_value(shown.as_str()),
    }
}

/// Run a program and return the integer on top of the stack.
pub fn run_tvm_program(code: CodeCell) -> (r: Result<i64, TvmError>)
    ensures
        value_view(r) == run_value(vm_run(code@, GAS_LIMIT)),
{
    proof {
        use_type_invariant(&code);
    }
    interpret_run(execute(code.cell, GAS_LIMIT))
}

/// The value of a parsed expression on the machine.
pub open spec fn expr_value(e: Expr) -> Result<int, TvmFault> {
    if code_of(e).len() > CELL_BYTES {
        Err(TvmFault::CodeTooLong)
    } else {
        run_value(vm_run(code_of(e), GAS_LIMIT))
    }
}

/// The value of an expression: `Ok(None)` if it is none or names an unbound
/// variable, an error if the machine does not come to an `i64`.
pub open spec fn checked_value(s: Seq<char>, known: Map<Seq<char>, i64>) -> Result<
    Option<int>,
    TvmFault,
> {
    match expr::parsed(s, known) {
        None => Ok(None),
        Some(e) => match expr_value(e) {
            Ok(n) => Ok(Some(n)),
            Err(f) => Err(f),
        },
    }
}

/// The view of a checked result.
pub open spec fn checked_view(r: Result<Option<i64>, TvmError>) -> Result<Option<int>, TvmFault> {
    match r {
        Ok(Some(n)) => Ok(Some(n as int)),
        Ok(None) => Ok(None),
        Err(e) => Err(e@),
    }
}

/// Evaluate an expression on the machine, telling a text without a value
/// (`Ok(None)`) from a run that failed (`Err`).
pub fn tvm_eval_expr_checked(expr: &str, known: &Scope<i64>) -> (r: Result<Option<i64>, TvmError>)
    ensures
        checked_view(r) == checked_value(expr@, known@),
{
    match expr::parse_expr(expr, known) {
        None => Ok(None),
        Some(ast) => {
            let mut program = TvmProgram::new();
            compile_ast(&ast, &mut program);
            assert(program@ =~= code_of(ast));
            match program.build_cell() {
                Err(e) => Err(e),
                Ok(cell) => match run_tvm_program(cell) {
                    Ok(n) => Ok(Some(n)),
                    Err(e) => Err(e),
                },
            }
        },
    }
}

/// Evaluate an expression on the machine.
///
/// Supports integer and boolean literals (`true` is 1, `false` is 0),
/// variables of `known`, `+ - * / %`, `& | ^ ~ << >>`, the comparisons
/// `== != < > <= >=`, a leading minus and parentheses.
pub fn tvm_eval_expr(expr: &str, known: &Scope<i64>) -> (r: Option<i64>)
    ensures
        match r {
            Some(n) => checked_value(expr@, known@) == Ok::<Option<int>, TvmFault>(Some(n as int)),
            None => !(checked_value(expr@, known@) matches Ok(Some(_))),
        },
{
    match tvm_eval_expr_checked(expr, known) {
        Ok(value) => value,
        Err(_) => None,
    }
}

/// The integer that a run leaves on top of the stack is read back: a run that
/// ends normally with the decimal rendering of an `i64` there gives that `i64`.
pub proof fn law_shown_integer_is_read_back(n: i64, debug: Seq<char>)
    ensures
        run_value((-1i32, Some(numeral::int_text(n as int)), debug)) == Ok::<int, TvmFault>(
            n as int,
        ),
{
    numeral::law_decimal_round_trip(n as int, i64::MIN as int, i64::MAX as int);
    numeral::lemma_int_text_ends(n as int);
    text::lemma_trimmed_already(numeral::int_text(n as int));
}

/// A run that does not end normally gives its exit code, which is the complement
/// of what the machine returns; one that ends normally never fails so.
pub proof fn law_failed_run_gives_its_exit_code(
    raw: i32,
    top: Option<Seq<char>>,
    debug: Seq<char>,
)
    ensures
        raw != -1 <==> (run_value((raw, top, debug)) matches Err(
            TvmFault::Failed { exit_code, raw: r, debug: d },
        ) && exit_code + raw == -1 && r == raw && d == debug),
        raw == -1 && top is None ==> run_value((raw, top, debug)) == Err::<int, TvmFault>(
            TvmFault::EmptyStack,
        ),
{
}

} // verus!
