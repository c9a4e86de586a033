use codetracer_ton_recorder::numeral::IntError;
use codetracer_ton_recorder::ops::{EventKind, Record, TraceOp};
use codetracer_ton_recorder::sandbox::{
    convert_vm_logs_to_trace, parse_actions, parse_gas_line, parse_stack_line, parse_vm_logs,
    trace_sandbox, SandboxConfig, VmLogError,
};

/// Minimal vm_logs_full snippet used across tests.
const SAMPLE_LOG: &str = "\
execute PUSHINT 10
gas: 26 -> 18
stack: [10]
execute PUSHINT 32
gas: 18 -> 10
stack: [10 32]
execute ADD
gas: 10 -> 2
stack: [42]
exit code: 0
";

// -- Parsing tests -------------------------------------------------------

#[test]
fn test_parse_vm_logs_instruction_count() {
    let logs = parse_vm_logs(SAMPLE_LOG).unwrap();
    assert_eq!(logs.len(), 3);
}

#[test]
fn test_parse_vm_logs_instructions() {
    let logs = parse_vm_logs(SAMPLE_LOG).unwrap();
    assert_eq!(logs[0].instruction, "PUSHINT 10");
    assert_eq!(logs[1].instruction, "PUSHINT 32");
    assert_eq!(logs[2].instruction, "ADD");
}

#[test]
fn test_parse_vm_logs_gas() {
    let logs = parse_vm_logs(SAMPLE_LOG).unwrap();
    // First instruction: gas 26 -> 18
    assert_eq!(logs[0].gas_used, 26);
    assert_eq!(logs[0].gas_remaining, 18);
    // Second instruction: gas 18 -> 10
    assert_eq!(logs[1].gas_used, 18);
    assert_eq!(logs[1].gas_remaining, 10);
    // Third instruction: gas 10 -> 2
    assert_eq!(logs[2].gas_used, 10);
    assert_eq!(logs[2].gas_remaining, 2);
}

#[test]
fn test_parse_vm_logs_stack() {
    let logs = parse_vm_logs(SAMPLE_LOG).unwrap();
    assert_eq!(logs[0].stack, vec!["10"]);
    assert_eq!(logs[1].stack, vec!["10", "32"]);
    assert_eq!(logs[2].stack, vec!["42"]);
}

#[test]
fn test_parse_vm_logs_exit_code() {
    let logs = parse_vm_logs(SAMPLE_LOG).unwrap();
    // Only the last entry should have an exit code.
    assert_eq!(logs[0].exit_code, None);
    assert_eq!(logs[1].exit_code, None);
    assert_eq!(logs[2].exit_code, Some(0));
}

#[test]
fn test_parse_vm_logs_negative_gas() {
    let log = "\
execute MUL
gas: -6 -> -14
stack: [84]
";
    let logs = parse_vm_logs(log).unwrap();
    assert_eq!(logs[0].gas_used, 6);
    assert_eq!(logs[0].gas_remaining, 14);
}

#[test]
fn test_parse_vm_logs_empty_stack() {
    let log = "\
execute NOP
gas: 10 -> 9
stack: []
";
    let logs = parse_vm_logs(log).unwrap();
    assert!(logs[0].stack.is_empty());
}

#[test]
fn test_parse_vm_logs_empty_input() {
    let logs = parse_vm_logs("").unwrap();
    assert!(logs.is_empty());
}

// -- Conversion tests ----------------------------------------------------

#[test]
fn test_convert_vm_logs_to_trace_step_numbers() {
    let logs = parse_vm_logs(SAMPLE_LOG).unwrap();
    let source = "test.tolk";
    let events = convert_vm_logs_to_trace(&logs, source).unwrap();

    assert_eq!(events.len(), 3);
    assert_eq!(events[0].step, 1);
    assert_eq!(events[1].step, 2);
    assert_eq!(events[2].step, 3);
}

#[test]
fn test_convert_vm_logs_to_trace_instructions() {
    let logs = parse_vm_logs(SAMPLE_LOG).unwrap();
    let source = "test.tolk";
    let events = convert_vm_logs_to_trace(&logs, source).unwrap();

    assert_eq!(events[0].instruction, "PUSHINT 10");
    assert_eq!(events[1].instruction, "PUSHINT 32");
    assert_eq!(events[2].instruction, "ADD");
}

#[test]
fn test_convert_vm_logs_to_trace_gas() {
    let logs = parse_vm_logs(SAMPLE_LOG).unwrap();
    let source = "test.tolk";
    let events = convert_vm_logs_to_trace(&logs, source).unwrap();

    assert_eq!(events[0].gas_remaining, 18);
    assert_eq!(events[1].gas_remaining, 10);
    assert_eq!(events[2].gas_remaining, 2);
}

#[test]
fn test_convert_vm_logs_to_trace_stack() {
    let logs = parse_vm_logs(SAMPLE_LOG).unwrap();
    let source = "test.tolk";
    let events = convert_vm_logs_to_trace(&logs, source).unwrap();

    assert_eq!(events[0].stack, vec!["10"]);
    assert_eq!(events[1].stack, vec!["10", "32"]);
    assert_eq!(events[2].stack, vec!["42"]);
}

#[test]
fn test_convert_vm_logs_to_trace_exit_code() {
    let logs = parse_vm_logs(SAMPLE_LOG).unwrap();
    let source = "test.tolk";
    let events = convert_vm_logs_to_trace(&logs, source).unwrap();

    assert_eq!(events[0].exit_code, None);
    assert_eq!(events[2].exit_code, Some(0));
}

// -- A longer log ----------------------------------------------------------

/// The log of `(10 + 32) * 2 + 10`.
const MOCK_LOG: &str = "\
execute PUSHINT 10
gas: 26 -> 18
stack: [10]
execute PUSHINT 32
gas: 18 -> 10
stack: [10 32]
execute ADD
gas: 10 -> 2
stack: [42]
execute PUSHINT 2
gas: 2 -> -6
stack: [42 2]
execute MUL
gas: -6 -> -14
stack: [84]
execute PUSHINT 10
gas: -14 -> -22
stack: [84 10]
execute ADD
gas: -22 -> -30
stack: [94]
exit code: 0
";

#[test]
fn test_parse_mock_vm_log_fixture() {
    let logs = parse_vm_logs(MOCK_LOG).unwrap();
    assert_eq!(logs.len(), 7);
    assert_eq!(logs[0].instruction, "PUSHINT 10");
    assert_eq!(logs[0].gas_used, 26);
    assert_eq!(logs[0].gas_remaining, 18);
    assert_eq!(logs[0].stack, vec!["10"]);
    assert_eq!(logs[2].instruction, "ADD");
    assert_eq!(logs[2].stack, vec!["42"]);
    assert_eq!(logs[4].instruction, "MUL");
    assert_eq!(logs[4].stack, vec!["84"]);
    assert_eq!(logs[6].instruction, "ADD");
    assert_eq!(logs[6].stack, vec!["94"]);
    assert_eq!(logs[6].exit_code, Some(0));
}

#[test]
fn test_fixture_convert_to_trace_events() {
    let logs = parse_vm_logs(MOCK_LOG).unwrap();
    let events = convert_vm_logs_to_trace(&logs, "flow_test.tolk").unwrap();
    assert_eq!(events.len(), 7);
    for (i, event) in events.iter().enumerate() {
        assert_eq!(event.step, (i + 1) as u32);
    }
    let last = events.last().unwrap();
    assert_eq!(last.exit_code, Some(0));
    assert_eq!(last.stack, vec!["94"]);
}

// -- Traces ----------------------------------------------------------------

fn events_of(ops: &[TraceOp]) -> Vec<(EventKind, &str, &str)> {
    let mut out = Vec::new();
    for op in ops {
        if let TraceOp::Event { channel, metadata, content } = op {
            out.push((*channel, metadata.as_str(), content.as_str()));
        }
    }
    out
}

#[test]
fn ctfs_reader_sees_sandbox_out_message_event() {
    let ops = trace_sandbox(
        "\
execute PUSHINT 1
gas: 26 -> 18
stack: [1]
exit code: 0
action: SENDRAWMSG mode=3 dst=EQDabc value=100 body=0xdeadbeef
",
        "contract.tolk",
    )
    .unwrap();
    let events = events_of(&ops);
    assert_eq!(events.len(), 1);
    let (channel, metadata, content) = events[0];
    assert_eq!(channel, EventKind::EvmEvent);
    assert_eq!(metadata, "tvm_out_message");
    assert!(
        content.contains("SENDRAWMSG")
            && content.contains("EQDabc")
            && content.contains("0xdeadbeef")
    );
}

#[test]
fn other_actions_have_their_own_tag() {
    let log = "action: SENDMSG a\n  action:  RAWRESERVE 5 \naction:\nno action: X\n";
    assert_eq!(parse_actions(log), vec!["SENDMSG a", "RAWRESERVE 5", ""]);
    let ops = trace_sandbox(log, "c.tolk").unwrap();
    assert_eq!(
        events_of(&ops),
        vec![
            (EventKind::EvmEvent, "tvm_out_message", "SENDMSG a"),
            (EventKind::EvmEvent, "tvm_action", "RAWRESERVE 5"),
            (EventKind::EvmEvent, "tvm_action", ""),
        ]
    );
}

#[test]
fn each_instruction_is_one_step() {
    let ops = trace_sandbox(MOCK_LOG, "flow.tolk").unwrap();
    let lines: Vec<u32> = ops
        .iter()
        .filter_map(|op| match op {
            TraceOp::Step { path, line } => {
                assert_eq!(path, "flow.tolk");
                Some(*line)
            }
            _ => None,
        })
        .collect();
    assert_eq!(lines, vec![1, 2, 3, 4, 5, 6, 7]);
    let tops: Vec<i64> = ops
        .iter()
        .filter_map(|op| match op {
            TraceOp::Variable { name, value: Record::Int { i, .. } } => {
                assert_eq!(name, "tos");
                Some(*i)
            }
            _ => None,
        })
        .collect();
    assert_eq!(tops, vec![10, 32, 42, 2, 84, 10, 94]);
    assert!(matches!(&ops[1], TraceOp::Function { name, line: 1, .. } if name == "<sandbox>"));
    assert!(matches!(&ops[2], TraceOp::Call));
}

#[test]
fn a_top_that_is_no_integer_is_not_shown() {
    let ops =
        trace_sandbox("execute NEWC\ngas: 5 -> 4\nstack: [1 C{00}]\n", "c.tolk").unwrap();
    assert!(!ops.iter().any(|op| matches!(op, TraceOp::Variable { .. })));
}

#[test]
fn an_exit_code_other_than_zero_is_an_error() {
    let ops = trace_sandbox(
        "execute THROW 35\ngas: 5 -> 4\nstack: []\nexit code: 35\n",
        "c.tolk",
    )
    .unwrap();
    assert_eq!(
        events_of(&ops),
        vec![(
            EventKind::Error,
            "tvm_exception",
            "TVM exception at instruction 'THROW 35' (exit code 35)"
        )]
    );
}

#[test]
fn an_exit_code_without_an_instruction_is_dropped() {
    assert!(parse_vm_logs("exit code: 5\n").unwrap().is_empty());
}

#[test]
fn a_log_reads_on_behind_its_beginning() {
    let front = "execute A\ngas: 9 -> 8\nstack: [1]\n";
    let back = "exit code: -3\nnoise\nexecute B 2\ngas: 8 -> 7\nstack: []\n";
    let whole = parse_vm_logs(&format!("{front}{back}")).unwrap();
    assert_eq!(whole.len(), 2);
    assert_eq!(whole[0].instruction, parse_vm_logs(front).unwrap()[0].instruction);
    assert_eq!(whole[0].exit_code, None);
    assert_eq!(whole[1].instruction, "B 2");
    assert_eq!(whole[1].exit_code, None);
}

#[test]
fn only_the_last_instruction_has_an_exit_code() {
    let group = |name: &str| format!("execute {name}\ngas: 9 -> 8\nstack: [1]\n");
    let log = format!(
        "{}exit code: 7\n{}exit code: 1\nexit code: 2\n{}noise\nexit code: 3\nexit code: 4\nnoise\n",
        group("A"),
        group("B"),
        group("C")
    );
    let logs = parse_vm_logs(&log).unwrap();
    let codes: Vec<Option<i32>> = logs.iter().map(|e| e.exit_code).collect();
    assert_eq!(codes, vec![None, None, Some(4)]);
    assert_eq!(
        events_of(&trace_sandbox(&log, "c.tolk").unwrap()),
        vec![(
            EventKind::Error,
            "tvm_exception",
            "TVM exception at instruction 'C' (exit code 4)"
        )]
    );
    let events = convert_vm_logs_to_trace(&logs, "c.tolk").unwrap();
    let codes: Vec<Option<i32>> = events.iter().map(|e| e.exit_code).collect();
    assert_eq!(codes, vec![None, None, Some(4)]);
}

#[test]
fn a_written_log_is_read_back() {
    let mut log = String::new();
    let gas = [(26u64, 18u64), (0, 9_223_372_036_854_775_807), (7, 0)];
    for (i, (before, after)) in gas.iter().enumerate() {
        log.push_str(&format!("execute PUSHINT {i}\ngas: {before} -> {after}\n"));
        log.push_str(&format!("stack: [{}]\n", vec!["x-1"; i].join(" ")));
    }
    log.push_str("exit code: -2147483648\n");
    let logs = parse_vm_logs(&log).unwrap();
    assert_eq!(logs.len(), 3);
    for (i, (before, after)) in gas.iter().enumerate() {
        assert_eq!(logs[i].instruction, format!("PUSHINT {i}"));
        assert_eq!((logs[i].gas_used, logs[i].gas_remaining), (*before, *after));
        assert_eq!(logs[i].stack, vec!["x-1"; i]);
    }
    assert_eq!(logs[2].exit_code, Some(i32::MIN));
}

#[test]
fn a_sandbox_config_names_its_files() {
    let config = SandboxConfig {
        vm_log_path: "vm.log".to_string(),
        source_path: Some("contract.tolk".to_string()),
    };
    assert_eq!(config.vm_log_path, "vm.log");
    assert_eq!(config.source_path.as_deref(), Some("contract.tolk"));
}

// -- Logs that cannot be read ------------------------------------------------

fn error_of(log: &str) -> (VmLogError, String) {
    let e = parse_vm_logs(log).unwrap_err();
    let message = e.message();
    assert_eq!(trace_sandbox(log, "c.tolk").unwrap_err(), e);
    (e, message)
}

#[test]
fn the_log_ends_behind_an_instruction() {
    let (e, message) = error_of("execute ADD\n");
    assert_eq!(e, VmLogError::MissingGas { instruction: "ADD".to_string() });
    assert_eq!(
        message,
        "unexpected end of log: expected gas line after instruction 'ADD'"
    );
    let (e, message) = error_of("execute ADD\ngas: 2 -> 1\n");
    assert_eq!(e, VmLogError::MissingStack { instruction: "ADD".to_string() });
    assert_eq!(
        message,
        "unexpected end of log: expected stack line after instruction 'ADD'"
    );
}

#[test]
fn a_gas_line_is_wrong() {
    let (e, message) = error_of("execute ADD\n oops \nstack: []\n");
    assert_eq!(e, VmLogError::NotGas { line: "oops".to_string() });
    assert_eq!(message, "expected gas line, got: 'oops'");
    let (e, message) = error_of("execute ADD\ngas: 1\nstack: []\n");
    assert_eq!(e, VmLogError::MalformedGas { line: "gas: 1".to_string() });
    assert_eq!(message, "malformed gas line: 'gas: 1'");
    let line = "gas: 1 -> 2 -> 3";
    assert_eq!(
        parse_gas_line(line).unwrap_err(),
        VmLogError::MalformedGas { line: line.to_string() }
    );
    let line = "gas: x -> 2";
    let e = parse_gas_line(line).unwrap_err();
    assert_eq!(e.message(), "invalid gas-before value in 'gas: x -> 2'");
    assert_eq!(
        e,
        VmLogError::GasBefore { line: line.to_string(), cause: IntError::InvalidDigit }
    );
    let line = "gas: 1 ->";
    let e = parse_gas_line(line).unwrap_err();
    assert_eq!(e.message(), "invalid gas-after value in 'gas: 1 ->'");
    assert_eq!(e, VmLogError::GasAfter { line: line.to_string(), cause: IntError::Empty });
}

#[test]
fn gas_values_are_absolute() {
    assert_eq!(parse_gas_line("gas:-5->-9223372036854775808"), Ok((5, 9223372036854775808)));
}

#[test]
fn a_stack_line_is_wrong() {
    let (e, message) = error_of("execute ADD\ngas: 2 -> 1\nexit code: 0\n");
    assert_eq!(e, VmLogError::NotStack { line: "exit code: 0".to_string() });
    assert_eq!(message, "expected stack line, got: 'exit code: 0'");
    for line in ["stack: 1 2", "stack: [1 2", "stack: 1]", "stack: [", "stack:"] {
        let e = parse_stack_line(line).unwrap_err();
        assert_eq!(e, VmLogError::MalformedStack { line: line.to_string() });
        assert_eq!(e.message(), format!("malformed stack line (missing brackets): '{line}'"));
    }
    assert_eq!(parse_stack_line("stack:[ ]"), Ok(vec![]));
    assert_eq!(
        parse_stack_line("stack: [ 1\t-2 ]"),
        Ok(vec!["1".to_string(), "-2".to_string()])
    );
}

#[test]
fn an_exit_code_is_wrong() {
    let (e, message) = error_of("exit code: none\n");
    assert_eq!(message, "invalid exit code: 'none'");
    assert_eq!(
        e,
        VmLogError::ExitCode { word: "none".to_string(), cause: IntError::InvalidDigit }
    );
    let (e, _) = error_of("exit code: 2147483648\n");
    assert_eq!(
        e,
        VmLogError::ExitCode { word: "2147483648".to_string(), cause: IntError::PosOverflow }
    );
    let (e, _) = error_of("exit code: -2147483649\n");
    assert_eq!(
        e,
        VmLogError::ExitCode { word: "-2147483649".to_string(), cause: IntError::NegOverflow }
    );
}
