//! Logs of the virtual machine as `@ton/sandbox` writes them (`vm_logs_full`),
//! and the trace of such a log.

use vstd::prelude::*;

use crate::numeral;
use crate::numeral::IntError;
use crate::ops;
use crate::ops::{EventKind, Op, Rec, Record, TraceOp, TypeKind};
use crate::text;

verus! {

/// One executed instruction of a log.
#[derive(Debug, Clone, PartialEq, Eq)]
pub struct VmLog {
    /// The instruction, such as `PUSHINT 10` or `ADD`.
    pub instruction: String,
    /// The gas before the instruction.
    pub gas_used: u64,
    /// The gas after the instruction.
    pub gas_remaining: u64,
    /// The stack after the instruction.
    pub stack: Vec<String>,
    /// The exit code, on the last instruction.
    pub exit_code: Option<i32>,
}

/// Where a log and the source it belongs to are found.
#[derive(Debug, Clone)]
pub struct SandboxConfig {
    /// The path of the log.
    pub vm_log_path: String,
    /// The path of the source, for source mapping.
    pub source_path: Option<String>,
}

/// A step of a trace made from a log.
#[derive(Debug, Clone, PartialEq, Eq)]
pub struct TraceEvent {
    /// The 1-based number of the step.
    pub step: u32,
    /// The instruction.
    pub instruction: String,
    /// The gas after the instruction.
    pub gas_remaining: u64,
    /// The stack after the instruction.
    pub stack: Vec<String>,
    /// The exit code, on the last event.
    pub exit_code: Option<i32>,
}

/// Why a log cannot be read.
#[derive(Debug, Clone, PartialEq, Eq)]
pub enum VmLogError {
    /// The log ends behind an instruction.
    MissingGas { instruction: String },
    /// The log ends behind the gas line of an instruction.
    MissingStack { instruction: String },
    /// Another line stands in place of a gas line.
    NotGas { line: String },
    /// A gas line is not two values with one arrow between them.
    MalformedGas { line: String },
    /// The gas before the instruction is no integer.
    GasBefore { line: String, cause: IntError },
    /// The gas after the instruction is no integer.
    GasAfter { line: String, cause: IntError },
    /// Another line stands in place of a stack line.
    NotStack { line: String },
    /// A stack line lacks a bracket.
    MalformedStack { line: String },
    /// The exit code is no 32-bit integer.
    ExitCode { word: String, cause: IntError },
}

/// The mathematical model of a log entry.
#[verifier::ext_equal]
pub struct Entry {
    pub instruction: Seq<char>,
    pub gas_used: int,
    pub gas_remaining: int,
    pub stack: Seq<Seq<char>>,
    pub exit_code: Option<i32>,
}

/// The mathematical model of an error.
#[verifier::ext_equal]
pub enum LogFault {
    MissingGas { instruction: Seq<char> },
    MissingStack { instruction: Seq<char> },
    NotGas { line: Seq<char> },
    MalformedGas { line: Seq<char> },
    GasBefore { line: Seq<char>, cause: IntError },
    GasAfter { line: Seq<char>, cause: IntError },
    NotStack { line: Seq<char> },
    MalformedStack { line: Seq<char> },
    ExitCode { word: Seq<char>, cause: IntError },
}

impl View for VmLog {
    type V = Entry;

    open spec fn view(&self) -> Entry {
        Entry {
            instruction: self.instruction@,
            gas_used: self.gas_used as int,
            gas_remaining: self.gas_remaining as int,
            stack: text::texts(self.stack@),
            exit_code: self.exit_code,
        }
    }
}

impl View for VmLogError {
    type V = LogFault;

    open spec fn view(&self) -> LogFault {
        match *self {
            VmLogError::MissingGas { instruction } => LogFault::MissingGas {
                instruction: instruction@,
            },
            VmLogError::MissingStack { instruction } => LogFault::MissingStack {
                instruction: instruction@,
            },
            VmLogError::NotGas { line } => LogFault::NotGas { line: line@ },
            VmLogError::MalformedGas { line } => LogFault::MalformedGas { line: line@ },
            VmLogError::GasBefore { line, cause } => LogFault::GasBefore { line: line@, cause },
            VmLogError::GasAfter { line, cause } => LogFault::GasAfter { line: line@, cause },
            VmLogError::NotStack { line } => LogFault::NotStack { line: line@ },
            VmLogError::MalformedStack { line } => LogFault::MalformedStack { line: line@ },
            VmLogError::ExitCode { word, cause } => LogFault::ExitCode { word: word@, cause },
        }
    }
}

/// What an error says.
pub open spec fn fault_text(e: LogFault) -> Seq<char> {
    match e {
        LogFault::MissingGas { instruction } =>
            "unexpected end of log: expected gas line after instruction '"@ + instruction + "'"@,
        LogFault::MissingStack { instruction } =>
            "unexpected end of log: expected stack line after instruction '"@ + instruction + "'"@,
        LogFault::NotGas { line } => "expected gas line, got: '"@ + line + "'"@,
        LogFault::MalformedGas { line } => "malformed gas line: '"@ + line + "'"@,
        LogFault::GasBefore { line, .. } => "invalid gas-before value in '"@ + line + "'"@,
        LogFault::GasAfter { line, .. } => "invalid gas-after value in '"@ + line + "'"@,
        LogFault::NotStack { line } => "expected stack line, got: '"@ + line + "'"@,
        LogFault::MalformedStack { line } => "malformed stack line (missing brackets): '"@ + line
            + "'"@,
        LogFault::ExitCode { word, .. } => "invalid exit code: '"@ + word + "'"@,
    }
}

impl VmLogError {
    /// The message of the error.
    pub fn message(&self) -> (r: String)
        ensures
            r@ == fault_text(self@),
    {
        match self {
            VmLogError::MissingGas { instruction } => text::concat3(
                "unexpected end of log: expected gas line after instruction '",
                instruction.as_str(),
                "'",
            ),
            VmLogError::MissingStack { instruction } => text::concat3(
                "unexpected end of log: expected stack line after instruction '",
                instruction.as_str(),
                "'",
            ),
            VmLogError::NotGas { line } => text::concat3(
                "expected gas line, got: '",
                line.as_str(),
                "'",
            ),
            VmLogError::MalformedGas { line } => text::concat3(
                "malformed gas line: '",
                line.as_str(),
                "'",
            ),
            VmLogError::GasBefore { line, .. } => text::concat3(
                "invalid gas-before value in '",
                line.as_str(),
                "'",
            ),
            VmLogError::GasAfter { line, .. } => text::concat3(
                "invalid gas-after value in '",
                line.as_str(),
                "'",
            ),
            VmLogError::NotStack { line } => text::concat3(
                "expected stack line, got: '",
                line.as_str(),
                "'",
            ),
            VmLogError::MalformedStack { line } => text::concat3(
                "malformed stack line (missing brackets): '",
                line.as_str(),
                "'",
            ),
            VmLogError::ExitCode { word, .. } => text::concat3(
                "invalid exit code: '",
                word.as_str(),
                "'",
            ),
        }
    }
}

/// The absolute value of an integer.
pub open spec fn absolute(n: int) -> int {
    if n < 0 {
        -n
    } else {
        n
    }
}

/// The two values of a line `gas: <before> -> <after>`, taken absolutely.
pub open spec fn gas_of(line: Seq<char>) -> Result<(int, int), LogFault> {
    match text::after(line, "gas:"@) {
        None => Err(LogFault::NotGas { line }),
        Some(rest) => {
            let parts = text::split_on_text(text::trimmed(rest), "->"@);
            if parts.len() != 2 {
                Err(LogFault::MalformedGas { line })
            } else {
                match numeral::i64_value(text::trimmed(parts[0])) {
                    Err(cause) => Err(LogFault::GasBefore { line, cause }),
                    Ok(before) => match numeral::i64_value(text::trimmed(parts[1])) {
                        Err(cause) => Err(LogFault::GasAfter { line, cause }),
                        Ok(after) => Ok((absolute(before), absolute(after))),
                    },
                }
            }
        },
    }
}

/// The values of a line `stack: [<value> <value> ...]`.
pub open spec fn stack_of(line: Seq<char>) -> Result<Seq<Seq<char>>, LogFault> {
    match text::after(line, "stack:"@) {
        None => Err(LogFault::NotStack { line }),
        Some(rest) => match text::after(text::trimmed(rest), "["@) {
            None => Err(LogFault::MalformedStack { line }),
            Some(open) => match text::before(open, "]"@) {
                None => Err(LogFault::MalformedStack { line }),
                Some(inner) => Ok(text::words_of(text::trimmed(inner))),
            },
        },
    }
}

/// The exit code of the last entry replaced by `code`.
pub open spec fn with_exit_code(done: Seq<Entry>, code: Option<i32>) -> Seq<Entry> {
    if done.len() == 0 {
        done
    } else {
        done.drop_last().push(Entry { exit_code: code, ..done.last() })
    }
}

/// No entry but the last has an exit code.
pub open spec fn exits_at_the_end(entries: Seq<Entry>) -> bool {
    forall|k: int| 0 <= k < entries.len() - 1 ==> #[trigger] entries[k].exit_code is None
}

/// The entries of the lines of a log from line `i`, behind the entries before
/// it. Each instruction takes up three lines; an exit code belongs to the last
/// instruction before it, and counts if no other instruction follows; other
/// lines say nothing.
pub open spec fn entries_from(lines: Seq<Seq<char>>, i: int, done: Seq<Entry>) -> Result<
    Seq<Entry>,
    LogFault,
>
    decreases lines.len() - i,
{
    if i < 0 || i >= lines.len() {
        Ok(done)
    } else {
        let line = text::trimmed(lines[i]);
        match text::after(line, "execute "@) {
            Some(rest) => {
                let instruction = text::trimmed(rest);
                if i + 1 >= lines.len() {
                    Err(LogFault::MissingGas { instruction })
                } else {
                    match gas_of(text::trimmed(lines[i + 1])) {
                        Err(e) => Err(e),
                        Ok((gas_used, gas_remaining)) => if i + 2 >= lines.len() {
                            Err(LogFault::MissingStack { instruction })
                        } else {
                            match stack_of(text::trimmed(lines[i + 2])) {
                                Err(e) => Err(e),
                                Ok(stack) => entries_from(
                                    lines,
                                    i + 3,
                                    with_exit_code(done, None).push(
                                        Entry {
                                            instruction,
                                            gas_used,
                                            gas_remaining,
                                            stack,
                                            exit_code: None,
                                        },
                                    ),
                                ),
                            }
                        },
                    }
                }
            },
            None => match text::after(line, "exit code:"@) {
                Some(word) => match numeral::int_value(
                    text::trimmed(word),
                    10,
                    i32::MIN as int,
                    i32::MAX as int,
                ) {
                    Err(cause) => Err(LogFault::ExitCode { word: text::trimmed(word), cause }),
                    Ok(code) => entries_from(lines, i + 1, with_exit_code(done, Some(code as i32))),
                },
                None => entries_from(lines, i + 1, done),
            },
        }
    }
}

/// The entries of a log.
pub open spec fn entries_of(log: Seq<char>) -> Result<Seq<Entry>, LogFault> {
    entries_from(text::lines_of(log), 0, Seq::empty())
}

/// The views of some entries.
pub open spec fn entries_view(v: Seq<VmLog>) -> Seq<Entry> {
    v.map_values(|e: VmLog| e@)
}

fn unsigned_abs(n: i64) -> (r: u64)
    ensures
        r == absolute(n as int),
{
    if n < 0 {
        (-(n as i128)) as u64
    } else {
        n as u64
    }
}

fn owned(parts: &Vec<&str>) -> (r: Vec<String>)
    ensures
        text::texts(r@) == text::views(parts@),
{
    let ghost all = text::views(parts@);
    let mut out: Vec<String> = Vec::new();
    let mut i: usize = 0;
    assert(text::texts(out@) =~= all.take(0));
    while i < parts.len()
        invariant
            i <= parts.len(),
            all == text::views(parts@),
            text::texts(out@) == all.take(i as int),
        decreases parts.len() - i,
    {
        let s = parts[i].to_owned();
        proof {
            text::lemma_texts_push(out@, s);
            assert(all.take(i + 1) =~= all.take(i as int).push(s@));
        }
        out.push(s);
        i += 1;
    }
    assert(all.take(i as int) =~= all);
    out
}

/// Read a line `gas: <before> -> <after>`.
///
/// The values are negative when the credit is exhausted; what is returned is
/// their absolute values.
pub fn parse_gas_line(line: &str) -> (r: Result<(u64, u64), VmLogError>)
    ensures
        match gas_of(line@) {
            Ok((before, after)) => r is Ok && r->Ok_0.0 as int == before && r->Ok_0.1 as int
                == after,
            Err(e) => r is Err && r->Err_0@ == e,
        },
{
    let rest = match text::strip_prefix(line, "gas:") {
        Some(rest) => rest,
        None => {
            return Err(VmLogError::NotGas { line: line.to_owned() });
        },
    };
    proof {
        reveal_strlit("->");
    }
    let parts = text::split_str(text::trim(rest), "->");
    if parts.len() != 2 {
        return Err(VmLogError::MalformedGas { line: line.to_owned() });
    }
    let before: i64 = match numeral::parse_i64(text::trim(parts[0])) {
        Ok(n) => n,
        Err(cause) => {
            return Err(VmLogError::GasBefore { line: line.to_owned(), cause });
        },
    };
    let after: i64 = match numeral::parse_i64(text::trim(parts[1])) {
        Ok(n) => n,
        Err(cause) => {
            return Err(VmLogError::GasAfter { line: line.to_owned(), cause });
        },
    };
    Ok((unsigned_abs(before), unsigned_abs(after)))
}

/// Read a line `stack: [<value> <value> ...]`.
pub fn parse_stack_line(line: &str) -> (r: Result<Vec<String>, VmLogError>)
    ensures
        match stack_of(line@) {
            Ok(stack) => r is Ok && text::texts(r->Ok_0@) == stack,
            Err(e) => r is Err && r->Err_0@ == e,
        },
{
    let rest = match text::strip_prefix(line, "stack:") {
        Some(rest) => text::trim(rest),
        None => {
            return Err(VmLogError::NotStack { line: line.to_owned() });
        },
    };
    if let Some(open) = text::strip_prefix(rest, "[") {
        if let Some(inner) = text::strip_suffix(open, "]") {
            let words = text::split_whitespace(text::trim(inner));
            return Ok(owned(&words));
        }
    }
    Err(VmLogError::MalformedStack { line: line.to_owned() })
}

/// Read a log. It is a sequence of groups
///
/// ```text
/// execute <INSTRUCTION>
/// gas: <before> -> <after>
/// stack: [<values...>]
/// ```
///
/// and a line `exit code: <N>` behind the last of them. An exit code with
/// another group behind it does not count. Other lines between the groups are
/// passed over.
pub fn parse_vm_logs(log_text: &str) -> (r: Result<Vec<VmLog>, VmLogError>)
    ensures
        match entries_of(log_text@) {
            Ok(entries) => r is Ok && entries_view(r->Ok_0@) == entries,
            Err(e) => r is Err && r->Err_0@ == e,
        },
        r is Ok ==> exits_at_the_end(entries_view(r->Ok_0@)),
{
    let lines = text::lines(log_text);
    let ghost all = text::lines_of(log_text@);
    let mut logs: Vec<VmLog> = Vec::new();
    let mut i: usize = 0;
    assert(entries_view(logs@) =~= Seq::empty());
    while i < lines.len()
        invariant
            i <= lines.len(),
            text::views(lines@) == all,
            all.len() == lines.len(),
            entries_of(log_text@) == entries_from(all, i as int, entries_view(logs@)),
        decreases lines.len() - i,
    {
        assert(all[i as int] == lines@[i as int]@);
        let line = text::trim(lines[i]);
        if let Some(rest) = text::strip_prefix(line, "execute ") {
            let instruction = text::trim(rest).to_owned();
            if i + 1 >= lines.len() {
                return Err(VmLogError::MissingGas { instruction });
            }
            assert(all[i + 1] == lines@[i + 1]@);
            let gas = match parse_gas_line(text::trim(lines[i + 1])) {
                Ok(gas) => gas,
                Err(e) => {
                    return Err(e);
                },
            };
            if i + 2 >= lines.len() {
                return Err(VmLogError::MissingStack { instruction });
            }
            assert(all[i + 2] == lines@[i + 2]@);
            let stack = match parse_stack_line(text::trim(lines[i + 2])) {
                Ok(stack) => stack,
                Err(e) => {
                    return Err(e);
                },
            };
            let ghost done = entries_view(logs@);
            if let Some(last) = logs.pop() {
                let ghost entry = last@;
                assert(entry == done.last());
                let mut last = last;
                last.exit_code = None;
                logs.push(last);
                assert(last@ == Entry { exit_code: None, ..entry });
            }
            let ghost cleared = with_exit_code(done, None);
            assert(entries_view(logs@) =~= cleared);
            let log = VmLog {
                instruction,
                gas_used: gas.0,
                gas_remaining: gas.1,
                stack,
                exit_code: None,
            };
            logs.push(log);
            assert(entries_view(logs@) =~= cleared.push(log@));
            i += 3;
        } else {
            if let Some(rest) = text::strip_prefix(line, "exit code:") {
                let word = text::trim(rest);
                match numeral::parse_i32(word) {
                    Ok(code) => {
                        let ghost done = entries_view(logs@);
                        if let Some(last) = logs.pop() {
                            let ghost entry = last@;
                            assert(entry == done.last());
                            let mut last = last;
                            last.exit_code = Some(code);
                            logs.push(last);
                            assert(last@ == Entry { exit_code: Some(code), ..entry });
                        }
                        assert(entries_view(logs@) =~= with_exit_code(done, Some(code)));
                    },
                    Err(cause) => {
                        return Err(VmLogError::ExitCode { word: word.to_owned(), cause });
                    },
                }
            }
            i += 1;
        }
    }
    proof {
        if entries_of(log_text@) is Ok {
            lemma_exits_at_the_end(all, 0, Seq::empty());
        }
    }
    Ok(logs)
}

/// The mathematical model of an event.
#[verifier::ext_equal]
pub struct StepEvent {
    pub step: u32,
    pub instruction: Seq<char>,
    pub gas_remaining: int,
    pub stack: Seq<Seq<char>>,
    pub exit_code: Option<i32>,
}

impl View for TraceEvent {
    type V = StepEvent;

    open spec fn view(&self) -> StepEvent {
        StepEvent {
            step: self.step,
            instruction: self.instruction@,
            gas_remaining: self.gas_remaining as int,
            stack: text::texts(self.stack@),
            exit_code: self.exit_code,
        }
    }
}

/// The views of some events.
pub open spec fn events_view(v: Seq<TraceEvent>) -> Seq<StepEvent> {
    v.map_values(|e: TraceEvent| e@)
}

/// The event of entry `i` of a log.
pub open spec fn event_of(entry: Entry, i: int) -> StepEvent {
    StepEvent {
        step: (i + 1) as u32,
        instruction: entry.instruction,
        gas_remaining: entry.gas_remaining,
        stack: entry.stack,
        exit_code: entry.exit_code,
    }
}

/// The events of a log: one numbered step for each entry.
pub open spec fn events_of(entries: Seq<Entry>) -> Seq<StepEvent> {
    Seq::new(entries.len(), |i: int| event_of(entries[i], i))
}

fn copy_texts(v: &Vec<String>) -> (r: Vec<String>)
    ensures
        text::texts(r@) == text::texts(v@),
{
    let ghost all = text::texts(v@);
    let mut out: Vec<String> = Vec::new();
    let mut i: usize = 0;
    assert(text::texts(out@) =~= all.take(0));
    while i < v.len()
        invariant
            i <= v.len(),
            all == text::texts(v@),
            text::texts(out@) == all.take(i as int),
        decreases v.len() - i,
    {
        let s = v[i].clone();
        proof {
            text::lemma_texts_push(out@, s);
            assert(all.take(i + 1) =~= all.take(i as int).push(s@));
        }
        out.push(s);
        i += 1;
    }
    assert(all.take(i as int) =~= all);
    out
}

/// The events of a log. Each instruction becomes a numbered step.
pub fn convert_vm_logs_to_trace(logs: &[VmLog], _source_path: &str) -> (r: Result<
    Vec<TraceEvent>,
    VmLogError,
>)
    ensures
        r is Ok,
        events_view(r->Ok_0@) == events_of(entries_view(logs@)),
{
    let ghost all = events_of(entries_view(logs@));
    let mut events: Vec<TraceEvent> = Vec::new();
    let mut i: usize = 0;
    assert(events_view(events@) =~= all.take(0));
    while i < logs.len()
        invariant
            i <= logs.len(),
            all == events_of(entries_view(logs@)),
            events_view(events@) == all.take(i as int),
        decreases logs.len() - i,
    {
        let log = &logs[i];
        let event = TraceEvent {
            step: (i + 1) as u32,
            instruction: log.instruction.clone(),
            gas_remaining: log.gas_remaining,
            stack: copy_texts(&log.stack),
            exit_code: log.exit_code,
        };
        let ghost done = events_view(events@);
        events.push(event);
        proof {
            assert(entries_view(logs@)[i as int] == log@);
            assert(all[i as int] == event@);
            assert(events_view(events@) =~= done.push(event@));
            assert(all.take(i + 1) =~= all.take(i as int).push(event@));
        }
        i += 1;
    }
    assert(all.take(i as int) =~= all);
    Ok(events)
}

/// The actions of a log: the texts of its lines `action: <NAME> ...`.
pub open spec fn actions_of(lines: Seq<Seq<char>>) -> Seq<Seq<char>>
    decreases lines.len(),
{
    if lines.len() == 0 {
        Seq::empty()
    } else {
        let done = actions_of(lines.drop_last());
        match text::after(text::trimmed(lines.last()), "action:"@) {
            Some(rest) => done.push(text::trimmed(rest)),
            None => done,
        }
    }
}

/// An action that sends a message.
pub open spec fn sends_message(action: Seq<char>) -> bool {
    let words = text::words_of(action);
    words.len() > 0 && (words[0] == "SENDRAWMSG"@ || words[0] == "SENDMSG"@)
}

/// The event of an action.
pub open spec fn action_op(action: Seq<char>) -> Op {
    Op::Event {
        channel: EventKind::EvmEvent,
        metadata: if sends_message(action) {
            "tvm_out_message"@
        } else {
            "tvm_action"@
        },
        content: action,
    }
}

/// The actions of a log, in order.
pub fn parse_actions(log_text: &str) -> (r: Vec<String>)
    ensures
        text::texts(r@) == actions_of(text::lines_of(log_text@)),
{
    let lines = text::lines(log_text);
    let ghost all = text::lines_of(log_text@);
    let mut out: Vec<String> = Vec::new();
    let mut i: usize = 0;
    assert(all.take(0) =~= Seq::empty());
    assert(text::texts(out@) =~= Seq::empty());
    while i < lines.len()
        invariant
            i <= lines.len(),
            text::views(lines@) == all,
            all.len() == lines.len(),
            text::texts(out@) == actions_of(all.take(i as int)),
        decreases lines.len() - i,
    {
        proof {
            assert(all[i as int] == lines@[i as int]@);
            assert(all.take(i + 1).drop_last() =~= all.take(i as int));
        }
        if let Some(rest) = text::strip_prefix(text::trim(lines[i]), "action:") {
            let action = text::trim(rest).to_owned();
            proof {
                text::lemma_texts_push(out@, action);
            }
            out.push(action);
        }
        i += 1;
    }
    assert(all.take(i as int) =~= all);
    out
}

/// The variable of a step: the top of the stack, if it is an integer.
pub open spec fn top_ops(stack: Seq<Seq<char>>) -> Seq<Op> {
    if stack.len() == 0 {
        Seq::empty()
    } else {
        match numeral::i64_value(stack.last()) {
            Ok(i) => seq![
                Op::Variable { name: "tos"@, value: Rec::Int { i: i as i64, type_id: 0 } },
            ],
            Err(_) => Seq::empty(),
        }
    }
}

/// The error of a step: an exit code other than zero.
pub open spec fn exit_ops(instruction: Seq<char>, exit_code: Option<i32>) -> Seq<Op> {
    match exit_code {
        Some(code) => if code != 0 {
            seq![
                Op::Event {
                    channel: EventKind::Error,
                    metadata: "tvm_exception"@,
                    content: "TVM exception at instruction '"@ + instruction + "' (exit code "@
                        + numeral::int_text(code as int) + ")"@,
                },
            ]
        } else {
            Seq::empty()
        },
        None => Seq::empty(),
    }
}

/// The operations of a step.
pub open spec fn step_ops(path: Seq<char>, e: StepEvent) -> Seq<Op> {
    seq![Op::Step { path, line: e.step }] + top_ops(e.stack) + exit_ops(e.instruction, e.exit_code)
}

/// The operations of some steps.
pub open spec fn steps_ops(path: Seq<char>, events: Seq<StepEvent>) -> Seq<Op>
    decreases events.len(),
{
    if events.len() == 0 {
        Seq::empty()
    } else {
        steps_ops(path, events.drop_last()) + step_ops(path, events.last())
    }
}

/// The operations before the first step.
pub open spec fn opening_ops(path: Seq<char>) -> Seq<Op> {
    seq![
        Op::Type { kind: TypeKind::Int, name: "int"@ },
        Op::Function { name: "<sandbox>"@, path, line: 1 },
        Op::Call,
    ]
}

/// The trace of a log: a call of a function `<sandbox>` with one step for each
/// instruction, and then the actions.
pub open spec fn sandbox_trace(log: Seq<char>, path: Seq<char>) -> Result<Seq<Op>, LogFault> {
    match entries_of(log) {
        Err(e) => Err(e),
        Ok(entries) => Ok(
            opening_ops(path) + steps_ops(path, events_of(entries)) + actions_of(
                text::lines_of(log),
            ).map_values(|a: Seq<char>| action_op(a)),
        ),
    }
}

fn exit_message(instruction: &str, code: i32) -> (r: String)
    ensures
        r@ == "TVM exception at instruction '"@ + instruction@ + "' (exit code "@
            + numeral::int_text(code as int) + ")"@,
{
    let mut r = text::concat3("TVM exception at instruction '", instruction, "' (exit code ");
    r.append(numeral::i64_to_string(code as i64).as_str());
    r.append(")");
    r
}

fn push_step(out: &mut Vec<TraceOp>, path: &str, e: &TraceEvent)
    ensures
        ops::ops_model(final(out)@) == ops::ops_model(old(out)@) + step_ops(path@, e@),
{
    let ghost before = ops::ops_model(out@);
    ops::push_op(out, TraceOp::Step { path: path.to_owned(), line: e.step });
    let ghost first = seq![Op::Step { path: path@, line: e.step }];
    assert(ops::ops_model(out@) =~= before + first);
    if e.stack.len() > 0 {
        let n: usize = e.stack.len() - 1;
        assert(text::texts(e.stack@).last() == e.stack@[n as int]@);
        if let Ok(i) = numeral::parse_i64(e.stack[n].as_str()) {
            let value = Record::Int { i, type_id: 0 };
            ops::push_op(out, TraceOp::Variable { name: "tos".to_owned(), value });
        }
    }
    let ghost top = top_ops(text::texts(e.stack@));
    assert(ops::ops_model(out@) =~= before + first + top);
    if let Some(code) = e.exit_code {
        if code != 0 {
            ops::push_op(
                out,
                TraceOp::Event {
                    channel: EventKind::Error,
                    metadata: "tvm_exception".to_owned(),
                    content: exit_message(e.instruction.as_str(), code),
                },
            );
        }
    }
    assert(ops::ops_model(out@) =~= before + step_ops(path@, e@));
}

fn is_message(action: &str) -> (b: bool)
    ensures
        b == sends_message(action@),
{
    let words = text::split_whitespace(action);
    assert(words@.len() == text::words_of(action@).len());
    if words.len() > 0 {
        assert(text::words_of(action@)[0] == words@[0]@);
        text::str_eq(words[0], "SENDRAWMSG") || text::str_eq(words[0], "SENDMSG")
    } else {
        false
    }
}

fn push_action(out: &mut Vec<TraceOp>, action: &str)
    ensures
        ops::ops_model(final(out)@) == ops::ops_model(old(out)@).push(action_op(action@)),
{
    let metadata = if is_message(action) {
        "tvm_out_message".to_owned()
    } else {
        "tvm_action".to_owned()
    };
    ops::push_op(
        out,
        TraceOp::Event { channel: EventKind::EvmEvent, metadata, content: action.to_owned() },
    );
}

/// The trace of a log that belongs to a source.
pub fn trace_sandbox(log_text: &str, source_path: &str) -> (r: Result<Vec<TraceOp>, VmLogError>)
    ensures
        match sandbox_trace(log_text@, source_path@) {
            Ok(trace) => r is Ok && ops::ops_model(r->Ok_0@) == trace,
            Err(e) => r is Err && r->Err_0@ == e,
        },
{
    let logs = parse_vm_logs(log_text)?;
    let events = convert_vm_logs_to_trace(logs.as_slice(), source_path)?;
    let mut out: Vec<TraceOp> = Vec::new();
    assert(ops::ops_model(out@) =~= Seq::empty());
    ops::push_op(&mut out, TraceOp::Type { kind: TypeKind::Int, name: "int".to_owned() });
    ops::push_op(
        &mut out,
        TraceOp::Function {
            name: "<sandbox>".to_owned(),
            path: source_path.to_owned(),
            line: 1,
        },
    );
    ops::push_op(&mut out, TraceOp::Call);
    let ghost opening = opening_ops(source_path@);
    assert(ops::ops_model(out@) =~= opening);
    let ghost all = events_view(events@);
    let mut i: usize = 0;
    assert(all.take(0) =~= Seq::empty());
    assert(ops::ops_model(out@) =~= opening + steps_ops(source_path@, all.take(0)));
    while i < events.len()
        invariant
            i <= events.len(),
            all == events_view(events@),
            ops::ops_model(out@) == opening + steps_ops(source_path@, all.take(i as int)),
        decreases events.len() - i,
    {
        proof {
            assert(all.take(i + 1).drop_last() =~= all.take(i as int));
            assert(all.take(i + 1).last() == events@[i as int]@);
        }
        let ghost before = ops::ops_model(out@);
        push_step(&mut out, source_path, &events[i]);
        assert(ops::ops_model(out@) =~= opening + steps_ops(source_path@, all.take(i + 1)));
        i += 1;
    }
    assert(all.take(i as int) =~= all);
    let ghost stepped = ops::ops_model(out@);
    let actions = parse_actions(log_text);
    let ghost acts = actions_of(text::lines_of(log_text@)).map_values(|a: Seq<char>| action_op(a));
    let mut j: usize = 0;
    assert(ops::ops_model(out@) =~= stepped + acts.take(0));
    while j < actions.len()
        invariant
            j <= actions.len(),
            actions.len() == acts.len(),
            text::texts(actions@) == actions_of(text::lines_of(log_text@)),
            acts == actions_of(text::lines_of(log_text@)).map_values(
                |a: Seq<char>| action_op(a),
            ),
            ops::ops_model(out@) == stepped + acts.take(j as int),
        decreases actions.len() - j,
    {
        push_action(&mut out, actions[j].as_str());
        proof {
            assert(text::texts(actions@)[j as int] == actions@[j as int]@);
            assert(acts[j as int] == action_op(actions@[j as int]@));
            assert(ops::ops_model(out@) =~= stepped + acts.take(j + 1));
        }
        j += 1;
    }
    assert(acts.take(j as int) =~= acts);
    Ok(out)
}

/// The steps among some operations.
pub open spec fn steps_in(s: Seq<Op>) -> Seq<Op>
    decreases s.len(),
{
    if s.len() == 0 {
        Seq::empty()
    } else if s.last() is Step {
        steps_in(s.drop_last()).push(s.last())
    } else {
        steps_in(s.drop_last())
    }
}

proof fn lemma_steps_add(a: Seq<Op>, b: Seq<Op>)
    ensures
        steps_in(a + b) == steps_in(a) + steps_in(b),
    decreases b.len(),
{
    if b.len() == 0 {
        assert(a + b =~= a);
        assert(steps_in(a) + steps_in(b) =~= steps_in(a));
    } else {
        assert((a + b).drop_last() =~= a + b.drop_last());
        lemma_steps_add(a, b.drop_last());
        assert(steps_in(a + b) =~= steps_in(a) + steps_in(b));
    }
}

proof fn lemma_no_steps(s: Seq<Op>)
    requires
        forall|i: int| 0 <= i < s.len() ==> !(#[trigger] s[i] is Step),
    ensures
        steps_in(s) == Seq::<Op>::empty(),
    decreases s.len(),
{
    if s.len() > 0 {
        assert(!(s[s.len() - 1] is Step));
        lemma_no_steps(s.drop_last());
    }
}

/// The steps of a trace with `n` instructions.
pub open spec fn numbered_steps(path: Seq<char>, n: nat) -> Seq<Op> {
    Seq::new(n, |i: int| Op::Step { path, line: (i + 1) as u32 })
}

proof fn lemma_numbered(path: Seq<char>, entries: Seq<Entry>)
    ensures
        steps_in(steps_ops(path, events_of(entries))) == numbered_steps(path, entries.len()),
    decreases entries.len(),
{
    if entries.len() == 0 {
        assert(numbered_steps(path, 0) =~= Seq::empty());
    } else {
        let less = entries.drop_last();
        let events = events_of(entries);
        assert(events.drop_last() =~= events_of(less));
        lemma_numbered(path, less);
        let e = events.last();
        let first = seq![Op::Step { path, line: e.step }];
        let top = top_ops(e.stack);
        let exit = exit_ops(e.instruction, e.exit_code);
        lemma_no_steps(top);
        lemma_no_steps(exit);
        assert(first.drop_last() =~= Seq::empty());
        reveal_with_fuel(steps_in, 2);
        assert(steps_in(first) =~= first);
        lemma_steps_add(first, top);
        lemma_steps_add(first + top, exit);
        lemma_steps_add(steps_ops(path, events.drop_last()), step_ops(path, e));
        assert(steps_in(steps_ops(path, events)) =~= numbered_steps(path, entries.len()));
    }
}

/// Each instruction of a log is one step of its trace: the steps are numbered
/// from one on in the order of the instructions, and there are no others.
pub proof fn law_each_instruction_is_one_step(log: Seq<char>, path: Seq<char>)
    requires
        sandbox_trace(log, path) is Ok,
    ensures
        entries_of(log) is Ok,
        steps_in(sandbox_trace(log, path)->Ok_0) == numbered_steps(
            path,
            entries_of(log)->Ok_0.len(),
        ),
{
    let entries = entries_of(log)->Ok_0;
    let opening = opening_ops(path);
    let steps = steps_ops(path, events_of(entries));
    let acts = actions_of(text::lines_of(log)).map_values(|a: Seq<char>| action_op(a));
    lemma_numbered(path, entries);
    lemma_no_steps(opening);
    lemma_no_steps(acts);
    lemma_steps_add(opening, steps);
    lemma_steps_add(opening + steps, acts);
    assert(steps_in(opening + steps + acts) =~= numbered_steps(path, entries.len()));
}

/// A log is read from front to back: where a beginning of it can be read, the
/// rest is read as it stands, behind the entries of the beginning.
pub proof fn law_log_reads_on(a: Seq<Seq<char>>, b: Seq<Seq<char>>)
    requires
        entries_from(a, 0, Seq::empty()) is Ok,
    ensures
        entries_from(a + b, 0, Seq::empty()) == entries_from(
            b,
            0,
            entries_from(a, 0, Seq::empty())->Ok_0,
        ),
{
    lemma_reads_on(a, b, 0, Seq::empty());
}

pub proof fn lemma_reads_on(a: Seq<Seq<char>>, b: Seq<Seq<char>>, i: int, done: Seq<Entry>)
    requires
        0 <= i <= a.len(),
        entries_from(a, i, done) is Ok,
    ensures
        entries_from(a + b, i, done) == entries_from(b, 0, entries_from(a, i, done)->Ok_0),
    decreases a.len() - i,
{
    if i == a.len() {
        lemma_shift(a, b, 0, done);
    } else {
        let line = text::trimmed(a[i]);
        assert((a + b)[i] == a[i]);
        if let Some(rest) = text::after(line, "execute "@) {
            assert((a + b)[i + 1] == a[i + 1]);
            assert((a + b)[i + 2] == a[i + 2]);
            let (gas_used, gas_remaining) = gas_of(text::trimmed(a[i + 1]))->Ok_0;
            let entry = Entry {
                instruction: text::trimmed(rest),
                gas_used,
                gas_remaining,
                stack: stack_of(text::trimmed(a[i + 2]))->Ok_0,
                exit_code: None,
            };
            lemma_reads_on(a, b, i + 3, with_exit_code(done, None).push(entry));
        } else if let Some(word) = text::after(line, "exit code:"@) {
            let code = numeral::int_value(
                text::trimmed(word),
                10,
                i32::MIN as int,
                i32::MAX as int,
            )->Ok_0;
            lemma_reads_on(a, b, i + 1, with_exit_code(done, Some(code as i32)));
        } else {
            lemma_reads_on(a, b, i + 1, done);
        }
    }
}

#[verifier::spinoff_prover]
#[verifier::rlimit(40)]
proof fn lemma_shift(a: Seq<Seq<char>>, b: Seq<Seq<char>>, i: int, done: Seq<Entry>)
    requires
        0 <= i <= b.len(),
    ensures
        entries_from(a + b, a.len() + i, done) == entries_from(b, i, done),
    decreases b.len() - i,
{
    let n = a.len() as int;
    if i < b.len() {
        let line = text::trimmed(b[i]);
        assert((a + b)[n + i] == b[i]);
        if let Some(rest) = text::after(line, "execute "@) {
            if i + 2 < b.len() {
                assert((a + b)[n + i + 1] == b[i + 1]);
                assert((a + b)[n + i + 2] == b[i + 2]);
                if gas_of(text::trimmed(b[i + 1])) is Ok && stack_of(
                    text::trimmed(b[i + 2]),
                ) is Ok {
                    let (gas_used, gas_remaining) = gas_of(text::trimmed(b[i + 1]))->Ok_0;
                    let entry = Entry {
                        instruction: text::trimmed(rest),
                        gas_used,
                        gas_remaining,
                        stack: stack_of(text::trimmed(b[i + 2]))->Ok_0,
                        exit_code: None,
                    };
                    lemma_shift(a, b, i + 3, with_exit_code(done, None).push(entry));
                }
            } else if i + 1 < b.len() {
                assert((a + b)[n + i + 1] == b[i + 1]);
            }
        } else if let Some(word) = text::after(line, "exit code:"@) {
            let code = numeral::int_value(
                text::trimmed(word),
                10,
                i32::MIN as int,
                i32::MAX as int,
            );
            if code is Ok {
                lemma_shift(a, b, i + 1, with_exit_code(done, Some(code->Ok_0 as i32)));
            }
        } else {
            lemma_shift(a, b, i + 1, done);
        }
    }
}

/// Reading a log loses no instruction and invents none: reading on keeps what
/// has been read, up to the exit code of the last instruction.
pub proof fn law_reading_keeps_instructions(lines: Seq<Seq<char>>, i: int, done: Seq<Entry>)
    requires
        0 <= i,
        entries_from(lines, i, done) is Ok,
    ensures
        done.len() <= entries_from(lines, i, done)->Ok_0.len(),
        forall|k: int|
            0 <= k < done.len() ==> {
                let e = #[trigger] entries_from(lines, i, done)->Ok_0[k];
                &&& e.instruction == done[k].instruction
                &&& e.gas_used == done[k].gas_used
                &&& e.gas_remaining == done[k].gas_remaining
                &&& e.stack == done[k].stack
                &&& k + 1 < done.len() ==> e == done[k]
            },
    decreases lines.len() - i,
{
    if i < lines.len() {
        let line = text::trimmed(lines[i]);
        if let Some(rest) = text::after(line, "execute "@) {
            let (gas_used, gas_remaining) = gas_of(text::trimmed(lines[i + 1]))->Ok_0;
            let entry = Entry {
                instruction: text::trimmed(rest),
                gas_used,
                gas_remaining,
                stack: stack_of(text::trimmed(lines[i + 2]))->Ok_0,
                exit_code: None,
            };
            law_reading_keeps_instructions(lines, i + 3, with_exit_code(done, None).push(entry));
        } else if let Some(word) = text::after(line, "exit code:"@) {
            let code = numeral::int_value(
                text::trimmed(word),
                10,
                i32::MIN as int,
                i32::MAX as int,
            )->Ok_0;
            law_reading_keeps_instructions(lines, i + 1, with_exit_code(done, Some(code as i32)));
        } else {
            law_reading_keeps_instructions(lines, i + 1, done);
        }
    }
}

/// Reading on keeps exit codes at the end.
#[verifier::spinoff_prover]
#[verifier::rlimit(40)]
proof fn lemma_exits_at_the_end(lines: Seq<Seq<char>>, i: int, done: Seq<Entry>)
    requires
        0 <= i,
        exits_at_the_end(done),
        entries_from(lines, i, done) is Ok,
    ensures
        exits_at_the_end(entries_from(lines, i, done)->Ok_0),
    decreases lines.len() - i,
{
    if i < lines.len() {
        let line = text::trimmed(lines[i]);
        if let Some(rest) = text::after(line, "execute "@) {
            let (gas_used, gas_remaining) = gas_of(text::trimmed(lines[i + 1]))->Ok_0;
            let entry = Entry {
                instruction: text::trimmed(rest),
                gas_used,
                gas_remaining,
                stack: stack_of(text::trimmed(lines[i + 2]))->Ok_0,
                exit_code: None,
            };
            let next = with_exit_code(done, None).push(entry);
            assert forall|k: int| 0 <= k < next.len() - 1 implies #[trigger] next[k].exit_code
                is None by {
                if k < done.len() - 1 {
                    assert(next[k] == done[k]);
                }
            }
            lemma_exits_at_the_end(lines, i + 3, next);
        } else if let Some(word) = text::after(line, "exit code:"@) {
            let code = numeral::int_value(
                text::trimmed(word),
                10,
                i32::MIN as int,
                i32::MAX as int,
            )->Ok_0;
            let next = with_exit_code(done, Some(code as i32));
            assert forall|k: int| 0 <= k < next.len() - 1 implies #[trigger] next[k].exit_code
                is None by {
                assert(next[k] == done[k]);
            }
            lemma_exits_at_the_end(lines, i + 1, next);
        } else {
            lemma_exits_at_the_end(lines, i + 1, done);
        }
    }
}

/// Only the last instruction of a log has an exit code, and so only the last
/// step of its trace can report an exception.
pub proof fn law_only_the_last_instruction_exits(log: Seq<char>)
    requires
        entries_of(log) is Ok,
    ensures
        exits_at_the_end(entries_of(log)->Ok_0),
        forall|k: int|
            0 <= k < entries_of(log)->Ok_0.len() - 1 ==> {
                let e = #[trigger] events_of(entries_of(log)->Ok_0)[k];
                &&& e.exit_code is None
                &&& exit_ops(e.instruction, e.exit_code) == Seq::<Op>::empty()
            },
{
    lemma_exits_at_the_end(text::lines_of(log), 0, Seq::empty());
    let entries = entries_of(log)->Ok_0;
    assert forall|k: int| 0 <= k < entries.len() - 1 implies ({
        let e = #[trigger] events_of(entries)[k];
        &&& e.exit_code is None
        &&& exit_ops(e.instruction, e.exit_code) == Seq::<Op>::empty()
    }) by {
        assert(entries[k].exit_code is None);
    }
}

/// The trace of a log begins with the type of integers and the call of a
/// function of its own, and its steps keep everything of their instructions.
pub proof fn law_trace_begins_with_a_call(log: Seq<char>, path: Seq<char>)
    requires
        sandbox_trace(log, path) is Ok,
    ensures
        ({
            let trace = sandbox_trace(log, path)->Ok_0;
            let entries = entries_of(log)->Ok_0;
            &&& trace.len() >= 3
            &&& trace[0] == (Op::Type { kind: TypeKind::Int, name: "int"@ })
            &&& trace[1] == (Op::Function { name: "<sandbox>"@, path, line: 1 })
            &&& trace[2] == Op::Call
            &&& events_of(entries).len() == entries.len()
            &&& forall|k: int|
                0 <= k < entries.len() ==> {
                    let e = #[trigger] events_of(entries)[k];
                    &&& e.step == (k + 1) as u32
                    &&& e.instruction == entries[k].instruction
                    &&& e.gas_remaining == entries[k].gas_remaining
                    &&& e.stack == entries[k].stack
                    &&& e.exit_code == entries[k].exit_code
                }
        }),
{
}

/// The errors among some operations.
pub open spec fn errors_in(s: Seq<Op>) -> Seq<Op>
    decreases s.len(),
{
    if s.len() == 0 {
        Seq::empty()
    } else {
        match s.last() {
            Op::Event { channel: EventKind::Error, .. } => errors_in(s.drop_last()).push(s.last()),
            _ => errors_in(s.drop_last()),
        }
    }
}

/// The variables among some operations.
pub open spec fn variables_in(s: Seq<Op>) -> Seq<Op>
    decreases s.len(),
{
    if s.len() == 0 {
        Seq::empty()
    } else if s.last() is Variable {
        variables_in(s.drop_last()).push(s.last())
    } else {
        variables_in(s.drop_last())
    }
}

proof fn lemma_filters_add(a: Seq<Op>, b: Seq<Op>)
    ensures
        errors_in(a + b) == errors_in(a) + errors_in(b),
        variables_in(a + b) == variables_in(a) + variables_in(b),
    decreases b.len(),
{
    if b.len() == 0 {
        assert(a + b =~= a);
        assert(errors_in(a) + errors_in(b) =~= errors_in(a));
        assert(variables_in(a) + variables_in(b) =~= variables_in(a));
    } else {
        assert((a + b).drop_last() =~= a + b.drop_last());
        lemma_filters_add(a, b.drop_last());
        assert(errors_in(a + b) =~= errors_in(a) + errors_in(b));
        assert(variables_in(a + b) =~= variables_in(a) + variables_in(b));
    }
}

/// An operation that is neither an error nor a variable.
spec fn is_plain(op: Op) -> bool {
    match op {
        Op::Event { channel, .. } => channel != EventKind::Error,
        Op::Variable { .. } => false,
        _ => true,
    }
}

proof fn lemma_filters_none(s: Seq<Op>)
    requires
        forall|i: int| 0 <= i < s.len() ==> is_plain(#[trigger] s[i]),
    ensures
        errors_in(s) == Seq::<Op>::empty(),
        variables_in(s) == Seq::<Op>::empty(),
    decreases s.len(),
{
    if s.len() > 0 {
        assert(is_plain(s[s.len() - 1]));
        lemma_filters_none(s.drop_last());
    }
}

/// The error that an exit code stands for.
pub open spec fn exception(instruction: Seq<char>, code: i32) -> Op {
    Op::Event {
        channel: EventKind::Error,
        metadata: "tvm_exception"@,
        content: "TVM exception at instruction '"@ + instruction + "' (exit code "@
            + numeral::int_text(code as int) + ")"@,
    }
}

/// The instructions that ended with an exit code other than zero.
pub open spec fn exceptions(entries: Seq<Entry>) -> Seq<Op>
    decreases entries.len(),
{
    if entries.len() == 0 {
        Seq::empty()
    } else {
        let e = entries.last();
        if e.exit_code is Some && e.exit_code->0 != 0 {
            exceptions(entries.drop_last()).push(exception(e.instruction, e.exit_code->0))
        } else {
            exceptions(entries.drop_last())
        }
    }
}

/// The variables that show the tops of the stacks that are integers.
pub open spec fn tops(entries: Seq<Entry>) -> Seq<Op>
    decreases entries.len(),
{
    if entries.len() == 0 {
        Seq::empty()
    } else {
        let e = entries.last();
        if e.stack.len() > 0 && numeral::i64_value(e.stack.last()) is Ok {
            tops(entries.drop_last()).push(
                Op::Variable {
                    name: "tos"@,
                    value: Rec::Int {
                        i: numeral::i64_value(e.stack.last())->Ok_0 as i64,
                        type_id: 0,
                    },
                },
            )
        } else {
            tops(entries.drop_last())
        }
    }
}

proof fn lemma_step_filters(path: Seq<char>, e: StepEvent)
    ensures
        ({
            let s = step_ops(path, e);
            &&& errors_in(s) == if e.exit_code is Some && e.exit_code->0 != 0 {
                seq![exception(e.instruction, e.exit_code->0)]
            } else {
                Seq::empty()
            }
            &&& variables_in(s) == if e.stack.len() > 0 && numeral::i64_value(e.stack.last()) is Ok {
                seq![
                    Op::Variable {
                        name: "tos"@,
                        value: Rec::Int {
                            i: numeral::i64_value(e.stack.last())->Ok_0 as i64,
                            type_id: 0,
                        },
                    },
                ]
            } else {
                Seq::empty()
            }
            &&& s.len() > 0
            &&& e.exit_code is Some && e.exit_code->0 != 0 ==> s.last() == exception(
                e.instruction,
                e.exit_code->0,
            )
        }),
{
    let first = seq![Op::Step { path, line: e.step }];
    let top = top_ops(e.stack);
    let exit = exit_ops(e.instruction, e.exit_code);
    lemma_filters_none(first);
    lemma_filters_add(first, top);
    lemma_filters_add(first + top, exit);
    reveal_with_fuel(errors_in, 2);
    reveal_with_fuel(variables_in, 2);
    assert(errors_in(step_ops(path, e)) =~= errors_in(exit));
    assert(variables_in(step_ops(path, e)) =~= variables_in(top));
    if exit.len() > 0 {
        assert(exit.drop_last() =~= Seq::empty());
        assert(errors_in(exit) =~= exit);
        assert(step_ops(path, e).last() == exit[0]);
    }
    if top.len() > 0 {
        assert(top.drop_last() =~= Seq::empty());
        assert(variables_in(top) =~= top);
    }
}

proof fn lemma_steps_filters(path: Seq<char>, entries: Seq<Entry>)
    ensures
        errors_in(steps_ops(path, events_of(entries))) == exceptions(entries),
        variables_in(steps_ops(path, events_of(entries))) == tops(entries),
    decreases entries.len(),
{
    if entries.len() > 0 {
        let less = entries.drop_last();
        let events = events_of(entries);
        assert(events.drop_last() =~= events_of(less));
        lemma_steps_filters(path, less);
        lemma_step_filters(path, events.last());
        lemma_filters_add(steps_ops(path, events.drop_last()), step_ops(path, events.last()));
        assert(errors_in(steps_ops(path, events)) =~= exceptions(entries));
        assert(variables_in(steps_ops(path, events)) =~= tops(entries));
    }
}

proof fn lemma_exceptions(entries: Seq<Entry>)
    requires
        forall|k: int| 0 <= k < entries.len() ==> (#[trigger] entries[k]).exit_code is None,
    ensures
        exceptions(entries) == Seq::<Op>::empty(),
    decreases entries.len(),
{
    if entries.len() > 0 {
        assert(entries[entries.len() - 1].exit_code is None);
        let less = entries.drop_last();
        assert forall|k: int| 0 <= k < less.len() implies (#[trigger] less[k]).exit_code is None by {
            assert(less[k] == entries[k]);
        }
        lemma_exceptions(less);
    }
}

/// The trace of a log holds an error exactly if the last instruction has an
/// exit code other than zero, positive or negative: it is then the only one,
/// names the instruction and the code, and stands right behind the operations
/// of the last step, before the actions. The variables of the trace are the
/// tops of the stacks that are integers, in order.
pub proof fn law_trace_reports_the_exit_code(log: Seq<char>, path: Seq<char>)
    requires
        sandbox_trace(log, path) is Ok,
    ensures
        ({
            let entries = entries_of(log)->Ok_0;
            let trace = sandbox_trace(log, path)->Ok_0;
            let last = entries.last();
            let failed = entries.len() > 0 && last.exit_code is Some && last.exit_code->0 != 0;
            let behind = actions_of(text::lines_of(log)).len();
            &&& entries_of(log) is Ok
            &&& failed ==> errors_in(trace) == seq![
                exception(last.instruction, last.exit_code->0),
            ]
            &&& failed ==> trace.len() > behind && trace[trace.len() - behind - 1] == exception(
                last.instruction,
                last.exit_code->0,
            )
            &&& !failed ==> errors_in(trace) == Seq::<Op>::empty()
            &&& variables_in(trace) == tops(entries)
        }),
{
    let entries = entries_of(log)->Ok_0;
    let opening = opening_ops(path);
    let steps = steps_ops(path, events_of(entries));
    let acts = actions_of(text::lines_of(log)).map_values(|a: Seq<char>| action_op(a));
    let trace = opening + steps + acts;
    law_only_the_last_instruction_exits(log);
    lemma_steps_filters(path, entries);
    assert forall|i: int| 0 <= i < acts.len() implies is_plain(#[trigger] acts[i]) by {}
    assert forall|i: int| 0 <= i < opening.len() implies is_plain(#[trigger] opening[i]) by {}
    lemma_filters_none(opening);
    lemma_filters_none(acts);
    lemma_filters_add(opening, steps);
    lemma_filters_add(opening + steps, acts);
    assert(errors_in(trace) =~= exceptions(entries));
    assert(variables_in(trace) =~= tops(entries));
    if entries.len() > 0 {
        let less = entries.drop_last();
        assert forall|k: int| 0 <= k < less.len() implies (#[trigger] less[k]).exit_code is None by {
            assert(less[k] == entries[k]);
            assert(entries[k].exit_code is None);
        }
        lemma_exceptions(less);
        let e = events_of(entries).last();
        lemma_step_filters(path, e);
        assert(steps.last() == step_ops(path, e).last());
        assert(trace[trace.len() - acts.len() - 1] == steps.last());
        if entries.last().exit_code is Some && entries.last().exit_code->0 != 0 {
            assert(exceptions(entries) =~= seq![
                exception(entries.last().instruction, entries.last().exit_code->0),
            ]);
        }
    }
}

/// The actions of a log are those of its lines, in order; a line `action: X` is
/// the action `X`, and a line that does not begin so is none.
pub proof fn law_actions_are_those_of_the_lines(
    a: Seq<Seq<char>>,
    b: Seq<Seq<char>>,
    line: Seq<char>,
)
    ensures
        actions_of(a + b) == actions_of(a) + actions_of(b),
        text::after(text::trimmed(line), "action:"@) is None ==> actions_of(seq![line])
            == Seq::<Seq<char>>::empty(),
        line.len() > 0 && text::trimmed(line) == line ==> actions_of(seq!["action: "@ + line])
            == seq![line],
        actions_of(Seq::empty()) == Seq::<Seq<char>>::empty(),
{
    reveal_strlit("action:");
    reveal_strlit("action: ");
    reveal_with_fuel(actions_of, 2);
    if line.len() > 0 && text::trimmed(line) == line {
        text::lemma_trimmed_ends(line);
        let whole = "action: "@ + line;
        assert(whole[0] == 'a');
        assert(whole.last() == line.last());
        text::lemma_trimmed_already(whole);
        assert(whole =~= "action:"@ + (seq![' '] + line));
        text::lemma_after("action:"@, seq![' '] + line);
        text::lemma_blank_before(line);
        assert(seq![whole].drop_last() =~= Seq::empty());
        assert(actions_of(seq![whole]) =~= seq![line]);
    }
    assert(seq![line].drop_last() =~= Seq::empty());
    lemma_actions_add(a, b);
}

proof fn lemma_actions_add(a: Seq<Seq<char>>, b: Seq<Seq<char>>)
    ensures
        actions_of(a + b) == actions_of(a) + actions_of(b),
    decreases b.len(),
{
    if b.len() == 0 {
        assert(a + b =~= a);
        assert(actions_of(a) + actions_of(b) =~= actions_of(a));
    } else {
        assert((a + b).drop_last() =~= a + b.drop_last());
        lemma_actions_add(a, b.drop_last());
        assert(actions_of(a + b) =~= actions_of(a) + actions_of(b));
    }
}

/// The trace of a log ends with one event for each action, in order: the first
/// word says whether it sends a message.
pub proof fn law_trace_ends_with_the_actions(log: Seq<char>, path: Seq<char>, k: int)
    requires
        sandbox_trace(log, path) is Ok,
        0 <= k < actions_of(text::lines_of(log)).len(),
    ensures
        ({
            let trace = sandbox_trace(log, path)->Ok_0;
            let actions = actions_of(text::lines_of(log));
            let words = text::words_of(actions[k]);
            trace.len() >= actions.len() && trace[trace.len() - actions.len() + k] == (Op::Event {
                channel: EventKind::EvmEvent,
                metadata: if words.len() > 0 && (words[0] == "SENDRAWMSG"@ || words[0]
                    == "SENDMSG"@) {
                    "tvm_out_message"@
                } else {
                    "tvm_action"@
                },
                content: actions[k],
            })
        }),
{
    let actions = actions_of(text::lines_of(log));
    let acts = actions.map_values(|a: Seq<char>| action_op(a));
    let trace = sandbox_trace(log, path)->Ok_0;
    assert(trace[trace.len() - actions.len() + k] == acts[k]);
}

/// The events of a log are its instructions in order, numbered from one on, each
/// with its gas, its stack and its exit code.
pub proof fn law_events_are_the_instructions(entries: Seq<Entry>, i: int)
    requires
        0 <= i < entries.len() < u32::MAX,
    ensures
        ({
            let events = events_of(entries);
            &&& events.len() == entries.len()
            &&& events[i].step as int - 1 == i
            &&& events[i].instruction == entries[i].instruction
            &&& events[i].gas_remaining == entries[i].gas_remaining
            &&& events[i].stack == entries[i].stack
            &&& events[i].exit_code == entries[i].exit_code
        }),
{
}

} // verus!
