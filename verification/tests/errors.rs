//! What goes wrong, and what is said then.

use codetracer_ton_recorder::loader::SourceFile;
use codetracer_ton_recorder::numeral::{
    parse_hex_i64, parse_i32, parse_i64, parse_int, parse_usize, IntError,
};
use codetracer_ton_recorder::ops::{EventKind, TolkTracer, TraceOp};
use codetracer_ton_recorder::replay::{
    replay_label, replay_source_path, replay_trace, ContractState, ReplayConfig, ReplayError,
    TransactionInfo,
};
use codetracer_ton_recorder::scope::Scope;
use codetracer_ton_recorder::tracer::TraceError;
use codetracer_ton_recorder::tvm::{
    extract_int_from_stack_value, interpret_run, tvm_eval_expr, tvm_eval_expr_checked, TvmError,
    VmRun,
};

#[test]
fn integers_of_a_range() {
    assert_eq!(parse_i64("-9223372036854775808"), Ok(i64::MIN));
    assert_eq!(parse_i64("+9223372036854775807"), Ok(i64::MAX));
    assert_eq!(parse_i64(""), Err(IntError::Empty));
    assert_eq!(parse_i64("-"), Err(IntError::InvalidDigit));
    assert_eq!(parse_i64("1_0"), Err(IntError::InvalidDigit));
    assert_eq!(parse_i64("9223372036854775808"), Err(IntError::PosOverflow));
    assert_eq!(parse_i64("-9223372036854775809"), Err(IntError::NegOverflow));
    assert_eq!(parse_i32("-2147483648"), Ok(i32::MIN));
    assert_eq!(parse_hex_i64("-fF"), Ok(-255));
    assert_eq!(parse_usize("12"), Ok(12));
    assert_eq!(parse_usize("-1"), Err(IntError::InvalidDigit));
    assert_eq!(parse_int("-zz", 36, -2000, 2000), Ok(-1295));
}

#[test]
fn integers_say_what_is_wrong() {
    assert_eq!(IntError::Empty.message(), "".parse::<i64>().unwrap_err().to_string());
    assert_eq!(IntError::InvalidDigit.message(), "x".parse::<i64>().unwrap_err().to_string());
    assert_eq!(IntError::PosOverflow.message(), "300".parse::<u8>().unwrap_err().to_string());
    assert_eq!(IntError::NegOverflow.message(), "-300".parse::<i8>().unwrap_err().to_string());
}

#[test]
fn a_division_by_zero_fails_on_the_machine() {
    let known: Scope<i64> = Scope::new();
    let e = tvm_eval_expr_checked("7 / 0", &known).unwrap_err();
    assert!(matches!(&e, TvmError::Failed { exit_code: 4, raw: -5, .. }));
    assert!(e.message().starts_with("TVM execution failed with exit code 4 (raw: -5), debug: "));
    assert_eq!(tvm_eval_expr("7 / 0", &known), None);
}

#[test]
fn a_value_beyond_64_bits_is_no_integer() {
    let known: Scope<i64> = Scope::new();
    let e = tvm_eval_expr_checked("9223372036854775807 + 1", &known).unwrap_err();
    assert_eq!(
        e.message(),
        "failed to parse TVM stack value '9223372036854775808' as i64: number too large to fit \
         in target type"
    );
    assert!(matches!(e, TvmError::NotAnInteger { cause: IntError::PosOverflow, .. }));
}

#[test]
fn code_must_fit_into_one_cell() {
    let known: Scope<i64> = Scope::new();
    let sum = |n: usize| vec!["1"; n].join(" + ");
    assert_eq!(tvm_eval_expr(&sum(64), &known), Some(64));
    let e = tvm_eval_expr_checked(&sum(65), &known).unwrap_err();
    assert!(matches!(e, TvmError::CodeTooLong));
    assert_eq!(e.message(), "failed to store opcode byte: cell overflow");
}

#[test]
fn text_without_a_value_is_no_failure() {
    let known: Scope<i64> = Scope::new();
    for text in ["", "  ", "x", "1 +", "1 ? 2", "f(1)"] {
        assert!(matches!(tvm_eval_expr_checked(text, &known), Ok(None)), "{text:?}");
        assert_eq!(tvm_eval_expr(text, &known), None);
    }
}

#[test]
fn a_run_is_read_by_its_exit_code_and_stack() {
    let run = |raw: i32, top: Option<&str>| VmRun {
        raw,
        top: top.map(|s| s.to_string()),
        debug: "log".to_string(),
    };
    assert!(matches!(interpret_run(run(-1, Some(" 42 "))), Ok(42)));
    assert!(matches!(interpret_run(run(-1, None)), Err(TvmError::EmptyStack)));
    assert_eq!(
        interpret_run(run(-1, None)).unwrap_err().message(),
        "TVM stack is empty after execution"
    );
    assert_eq!(
        interpret_run(run(0, Some("1"))).unwrap_err().message(),
        "TVM execution failed with exit code -1 (raw: 0), debug: log"
    );
    assert_eq!(
        extract_int_from_stack_value("(null)").unwrap_err().message(),
        "failed to parse TVM stack value '(null)' as i64: invalid digit found in string"
    );
    assert!(matches!(extract_int_from_stack_value("-9223372036854775808"), Ok(i64::MIN)));
}

fn trace_with(source: &str, depth: u32) -> Result<Vec<TraceOp>, TraceError> {
    let none: Vec<SourceFile> = Vec::new();
    TolkTracer::trace_program("p.tolk", source, &none, depth)
}

#[test]
fn a_program_needs_an_entry_point() {
    let e = trace_with("fun compute(): int {\n    return 1;\n}\n", 100).unwrap_err();
    assert_eq!(e, TraceError::NoEntryPoint);
    assert_eq!(
        e.message(),
        "no entry point found in Tolk program: declare `main()`, `onInternalMessage(...)`, or \
         `onExternalMessage(...)`"
    );
}

#[test]
fn endless_recursion_is_too_deep() {
    let e = trace_with("fun main(): int {\n    return main();\n}\n", 40).unwrap_err();
    assert_eq!(e, TraceError::TooDeep);
    assert_eq!(e.message(), "evaluation is nested too deeply");
}

#[test]
fn a_failure_of_the_machine_is_an_event_and_the_trace_goes_on() {
    let ops = trace_with(
        "fun main(): int {\n    var a: int = 1 / 0;\n    var b: int = 2;\n    return b;\n}\n",
        100,
    )
    .unwrap();
    let mut events = ops.iter().filter_map(|op| match op {
        TraceOp::Event { channel, metadata, content } => Some((*channel, metadata, content)),
        _ => None,
    });
    let (channel, metadata, content) = events.next().unwrap();
    assert_eq!(channel, EventKind::Error);
    assert_eq!(metadata, "tvm_exception");
    assert!(content.starts_with("TVM execution failed with exit code 4"));
    assert!(events.next().is_none());
    let names: Vec<&str> = ops
        .iter()
        .filter_map(|op| match op {
            TraceOp::Variable { name, .. } => Some(name.as_str()),
            _ => None,
        })
        .collect();
    assert_eq!(names, vec!["b"]);
}

fn config(source_dir: Option<&str>) -> ReplayConfig {
    ReplayConfig {
        tx_hash: "abc".to_string(),
        address: "EQD".to_string(),
        endpoint: "http://localhost".to_string(),
        source_dir: source_dir.map(|s| s.to_string()),
    }
}

#[test]
fn replay_errors_say_what_is_wrong() {
    let e = ReplayError::NoLiteserver { endpoint: "http://x".to_string() };
    assert_eq!(
        e.message(),
        "Liteserver communication not yet implemented (endpoint: http://x)"
    );
    let e = ReplayError::NoTransaction { tx_hash: "ab".to_string(), endpoint: "e".to_string() };
    assert_eq!(
        e.message(),
        "failed to replay transaction ab -- Liteserver fetch not yet implemented"
    );
    assert_eq!(ReplayError::BocTooShort { len: 3 }.message(), "BOC data too short (3 bytes)");
    let e = ReplayError::BocMagic { found: vec![0, 1, 0xab, 0xff] };
    assert_eq!(e.message(), "invalid BOC magic: expected b5ee9c72, got 0001abff");
}

#[test]
fn a_replay_shows_the_balance() {
    let info = TransactionInfo {
        in_msg_body: vec![],
        contract_state: ContractState { code: vec![], data: vec![], balance: 1_000_000_000 },
    };
    let ops = replay_trace(&config(None), &info);
    assert_eq!(
        format!("{ops:?}"),
        "[Type { kind: Int, name: \"int\" }, \
         Function { name: \"replay:abc\", path: \"contract.tolk\", line: 1 }, Call, \
         Step { path: \"contract.tolk\", line: 1 }, \
         Variable { name: \"balance\", value: Int { i: 1000000000, type_id: 0 } }]"
    );
    assert_eq!(replay_label(&config(None)), "EQD");
    assert_eq!(replay_label(&config(Some("src"))), "src");
    assert_eq!(replay_source_path(&config(Some("src"))), "src");
}
