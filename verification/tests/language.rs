//! The corners of the language.

use codetracer_ton_recorder::ast::{GateMode, Statement};
use codetracer_ton_recorder::brackets::{
    bracket_depth, find_top_level_assign, split_top_level_commas,
};
use codetracer_ton_recorder::cells::{apply_method, MethodOutcome};
use codetracer_ton_recorder::directives::{
    parse_multi_message_directive, parse_variant_constructors,
};
use codetracer_ton_recorder::functions::{parse_functions, parse_receiver_prefix};
use codetracer_ton_recorder::loader::SourceFile;
use codetracer_ton_recorder::ops::{EventKind, Record, TolkTracer, TraceOp};
use codetracer_ton_recorder::parser::{
    gather_logical_line, strip_block_header, strip_paren_block_header,
};
use codetracer_ton_recorder::rewrite::{resolve_field_accesses, strip_as_casts};
use codetracer_ton_recorder::scope::Scope;
use codetracer_ton_recorder::statement::{parse_match_arm, parse_statement};
use codetracer_ton_recorder::syntax::{
    is_simple_identifier, parse_call_with_args, parse_function_call, parse_method_call,
    parse_slice_literal, parse_struct_literal, parse_tuple_literal, split_top_level_dot,
    strip_generic_args,
};
use codetracer_ton_recorder::tracer::synthesize_entry_arg;
use codetracer_ton_recorder::tvm::tvm_eval_expr;
use codetracer_ton_recorder::value::{
    format_payload, format_payload_with_refs, SliceEncoding, Value,
};

fn trace(source: &str) -> Vec<TraceOp> {
    let none: Vec<SourceFile> = Vec::new();
    TolkTracer::trace_program("p.tolk", source, &none, 100).unwrap()
}

fn show(record: &Record) -> String {
    match record {
        Record::Int { i, .. } => format!("{i}"),
        Record::Tuple { elements, .. } => {
            format!("({})", elements.iter().map(show).collect::<Vec<_>>().join(", "))
        }
        Record::Struct { field_values, .. } => {
            format!("{{{}}}", field_values.iter().map(show).collect::<Vec<_>>().join(", "))
        }
        Record::Variant { discriminator, contents, .. } => {
            format!("{discriminator}{}", show(contents))
        }
        Record::Raw { r, .. } => r.clone(),
        Record::Nothing => "nothing".to_string(),
    }
}

fn vars(ops: &[TraceOp]) -> Vec<String> {
    ops.iter()
        .filter_map(|op| match op {
            TraceOp::Variable { name, value } => Some(format!("{name}={}", show(value))),
            _ => None,
        })
        .collect()
}

/// The variables that the body of `main` records.
fn body(lines: &str) -> Vec<String> {
    vars(&trace(&format!("fun main(): int {{\n{lines}\n}}\n")))
}

fn events(ops: &[TraceOp]) -> Vec<(EventKind, String, String)> {
    ops.iter()
        .filter_map(|op| match op {
            TraceOp::Event { channel, metadata, content } => {
                Some((*channel, metadata.clone(), content.clone()))
            }
            _ => None,
        })
        .collect()
}

// -- Shapes of expressions -------------------------------------------------

#[test]
fn identifiers() {
    for name in ["a", "_", "a1_B", " padded ", "\u{e9}t\u{e9}"] {
        assert!(is_simple_identifier(name), "{name:?}");
    }
    for name in ["", "1a", "a b", "a.b", "a()"] {
        assert!(!is_simple_identifier(name), "{name:?}");
    }
}

#[test]
fn generic_arguments_are_cut_off() {
    assert_eq!(strip_generic_args("max<int>"), "max");
    assert_eq!(strip_generic_args(" Map < K, Box<V> > "), "Map");
    assert_eq!(strip_generic_args("max"), "max");
    assert_eq!(strip_generic_args("a>"), "a>");
}

#[test]
fn calls() {
    let (name, args) = parse_call_with_args("f(a, g(b, c), (d, e))").unwrap();
    assert_eq!(name, "f");
    assert_eq!(args, vec!["a", "g(b, c)", "(d, e)"]);
    let (name, args) = parse_call_with_args(" max<int>( ) ").unwrap();
    assert_eq!(name, "max");
    assert!(args.is_empty());
    for text in ["f", "f(a) + g(b)", "1f()", "(a)", "x.f(a)", "f(a))", "\u{e9}()"] {
        assert!(parse_call_with_args(text).is_none(), "{text:?}");
    }
    assert_eq!(parse_function_call("f()"), Some("f".to_string()));
    assert_eq!(parse_function_call("f(1)"), None);
}

#[test]
fn method_calls() {
    let (lhs, method, args) =
        parse_method_call("beginCell().storeInt(a.b, 32).endCell()").unwrap();
    assert_eq!(lhs, "beginCell().storeInt(a.b, 32)");
    assert_eq!(method, "endCell");
    assert!(args.is_empty());
    let (lhs, method, args) = parse_method_call("p.scale(2, f(3))").unwrap();
    assert_eq!((lhs, method), ("p", "scale"));
    assert_eq!(args, vec!["2", "f(3)"]);
    for text in ["f(a.b)", "p.x", ".f()", "p.1()", "(p.f()"] {
        assert!(parse_method_call(text).is_none(), "{text:?}");
    }
}

#[test]
fn field_accesses() {
    assert_eq!(split_top_level_dot("p.x"), Some(("p", "x")));
    assert_eq!(split_top_level_dot(" pair . 0 "), Some(("pair", "0")));
    assert_eq!(split_top_level_dot("f(a.b).c"), Some(("f(a.b)", "c")));
    for text in ["a.b.c", "1.5", "a + b.c", "a.", ".a", "a.b-c", "f(a.b)"] {
        assert_eq!(split_top_level_dot(text), None, "{text:?}");
    }
}

#[test]
fn tuples_and_structs() {
    assert_eq!(
        parse_tuple_literal("(1, (2, 3), f(4, 5))"),
        Some(vec!["1".to_string(), "(2, 3)".to_string(), "f(4, 5)".to_string()])
    );
    for text in ["(1)", "()", "(1), (2)", "(1, 2) + 3", "1, 2"] {
        assert_eq!(parse_tuple_literal(text), None, "{text:?}");
    }
    let (name, fields) = parse_struct_literal("Box<int> { v: f(1, 2), w: P { x: 1 } }").unwrap();
    assert_eq!(name, "Box");
    assert_eq!(
        fields,
        vec![
            ("v".to_string(), "f(1, 2)".to_string()),
            ("w".to_string(), "P { x: 1 }".to_string())
        ]
    );
    assert_eq!(parse_struct_literal("Empty {}"), Some(("Empty".to_string(), vec![])));
    for text in ["point { x: 1 }", "P { x }", "P { 1: 2 }", "P { x: }", "P", "{ x: 1 }"] {
        assert_eq!(parse_struct_literal(text), None, "{text:?}");
    }
}

fn slice(text: &str) -> Option<(SliceEncoding, Vec<u8>)> {
    match parse_slice_literal(text) {
        Some(Value::SliceLit { encoding, bytes }) => Some((encoding, bytes)),
        Some(_) => panic!("no literal"),
        None => None,
    }
}

#[test]
fn literal_slices() {
    assert_eq!(slice("\"abc\""), Some((SliceEncoding::Text, b"abc".to_vec())));
    assert_eq!(slice("\"\""), Some((SliceEncoding::Text, vec![])));
    assert_eq!(
        slice(r#""a\"b\\c\n\t\q\""#.trim()),
        Some((SliceEncoding::Text, b"a\"b\\c\n\t\\q\\".to_vec()))
    );
    assert_eq!(
        slice("\"\u{20ac}\""),
        Some((SliceEncoding::Text, vec![0xe2, 0x82, 0xac]))
    );
    assert_eq!(slice("0x\"00 aB\tf\""), Some((SliceEncoding::Hex, vec![0x00, 0xab, 0xf0])));
    assert_eq!(slice("0X\"\""), Some((SliceEncoding::Hex, vec![])));
    for text in ["\"", "\"a", "0x\"0g\"", "0x\"ab", "\"a\" + \"b\"", "\"a\" \"b\"", "abc"] {
        assert_eq!(slice(text), None, "{text:?}");
    }
}

#[test]
fn commas_and_brackets() {
    assert_eq!(split_top_level_commas("a, (b, c), [d, {e, f}]"), vec!["a", "(b, c)", "[d, {e, f}]"]);
    assert!(split_top_level_commas("   ").is_empty());
    assert_eq!(bracket_depth("(a[b{c"), 3);
    assert_eq!(bracket_depth("})"), -2);
    assert_eq!(find_top_level_assign("a = b == c"), Some(2));
    assert_eq!(find_top_level_assign("a == b"), None);
    assert_eq!(find_top_level_assign("f(a = b)"), None);
}

#[test]
fn casts_are_dropped() {
    assert_eq!(strip_as_casts("x as int"), "x");
    assert_eq!(strip_as_casts("x as coin + y as int"), "x + y");
    assert_eq!(strip_as_casts("class + asset"), "class + asset");
    assert_eq!(strip_as_casts("x as (int)"), "x as (int)");
}

#[test]
fn integer_fields_are_resolved() {
    let mut env: Scope<Value> = Scope::new();
    env.insert("t".to_string(), Value::Tuple(vec![Value::Int(7), Value::Int(-8)]));
    env.insert(
        "p".to_string(),
        Value::Struct {
            ty_name: "P".to_string(),
            fields: vec![
                ("x".to_string(), Value::Int(3)),
                ("t".to_string(), Value::Tuple(vec![])),
            ],
        },
    );
    assert_eq!(resolve_field_accesses("p.x * p.x + t.0", &env), "3 * 3 + 7");
    assert_eq!(resolve_field_accesses("p.t + q.x + t.5", &env), "p.t + q.x + t.5");
    assert_eq!(resolve_field_accesses("xp.x", &env), "xp.x");
}

// -- Statements ------------------------------------------------------------

#[test]
fn returns_with_and_without_a_value() {
    assert!(matches!(
        parse_statement("return;", 4),
        Some(Statement::Return { expr, line: 4 }) if expr.is_empty()
    ));
    assert!(parse_statement("return", 4).is_none());
    let ops = trace("fun f() {\n    return;\n}\nfun main() {\n    f();\n}\n");
    assert!(ops
        .iter()
        .any(|op| matches!(op, TraceOp::Return { value: Record::Nothing })));
}

#[test]
fn compound_assignments() {
    for (line, expected) in [
        ("x += 2;", "x + (2)"),
        ("x -= a - b;", "x - (a - b)"),
        ("x <<= 3;", "x << (3)"),
        ("x >>= 1;", "x >> (1)"),
        ("x ^= y;", "x ^ (y)"),
    ] {
        match parse_statement(line, 1) {
            Some(Statement::Assign { name, expr, .. }) => {
                assert_eq!((name.as_str(), expr.as_str()), ("x", expected));
            }
            other => panic!("{line}: {other:?}"),
        }
    }
    assert_eq!(
        body("    var x: int = 10;\n    x += 2;\n    x *= x - 1;\n    x %= 100;\n    x >>= 2;"),
        vec!["x=10", "x=12", "x=132", "x=32", "x=8"]
    );
}

#[test]
fn conditional_throws() {
    match parse_statement("throwUnless (35, f(a, b));", 9) {
        Some(Statement::GatedThrow { code, condition, mode, line: 9 }) => {
            assert_eq!((code.as_str(), condition.as_str()), ("35", "f(a, b)"));
            assert_eq!(mode, GateMode::Unless);
        }
        other => panic!("{other:?}"),
    }
    let ops = trace(
        "fun main(): int {\n    throwIf(7, 1 == 2);\n    throwUnless(8, 0);\n    var a: int = 1;\n    return a;\n}\n",
    );
    assert_eq!(
        events(&ops),
        vec![(EventKind::Error, "TolkThrow".to_string(), "throwUnless: code 8".to_string())]
    );
    assert!(vars(&ops).is_empty());
}

#[test]
fn failures_that_are_never_reached_are_recorded() {
    let ops = trace(
        "fun main(): int {\n    if (0) {\n        while (0) {\n            throw 1;\n        }\n    } else {\n        return 5;\n    }\n    assert (x > 0, 2);\n}\n",
    );
    assert_eq!(
        events(&ops),
        vec![
            (EventKind::Error, "TolkThrow".to_string(), "throw 1".to_string()),
            (EventKind::Error, "TolkAssert".to_string(), "assert: code 2".to_string()),
        ]
    );
}

#[test]
fn the_binder_of_an_arm_ends_with_the_arm() {
    let arm = parse_match_arm("Active(n) => { total = n; }", 3).unwrap();
    assert_eq!(arm.constructor, "Active");
    assert_eq!(arm.payload_binding.as_deref(), Some("n"));
    assert_eq!(arm.body.len(), 1);
    assert_eq!(
        body(
            "    var n: int = 1;\n    var total: int = 0;\n    var s = Active { v: 5 };\n    match (s) {\n        Active(n) => { total = n; }\n        Idle => { total = 9; }\n    }\n    var after: int = n + total;"
        ),
        vec!["n=1", "total=0", "s={5}", "total=5", "after=6"]
    );
}

#[test]
fn no_arm_may_fit() {
    assert_eq!(
        body("    var s = Idle {};\n    match (s) {\n        Active(n) => { x = n; }\n    }\n    var y: int = 2;"),
        vec!["s={}", "y=2"]
    );
}

#[test]
fn loops_count() {
    assert_eq!(
        body("    var i: int = 0;\n    do {\n        i = i + 1;\n    } until (1);"),
        vec!["i=0", "i=1"]
    );
    assert_eq!(
        body("    var i: int = 0;\n    repeat (3) {\n        i = i + 2;\n    }\n    repeat (0 - 1) {\n        i = 100;\n    }"),
        vec!["i=0", "i=2", "i=4", "i=6"]
    );
    assert_eq!(
        body("    var i: int = 0;\n    while (i < 2) {\n        i = i + 1;\n    }"),
        vec!["i=0", "i=1", "i=2"]
    );
}

#[test]
fn an_endless_loop_ends() {
    let ops = trace("fun main(): int {\n    var i: int = 0;\n    while (1) {\n        i = i + 1;\n    }\n    return i;\n}\n");
    assert_eq!(vars(&ops).last().map(|s| s.as_str()), Some("i=10000"));
}

#[test]
fn blocks_and_headers() {
    assert_eq!(strip_block_header("if (a == (b)) {", "if"), Some("a == (b)".to_string()));
    assert_eq!(strip_block_header("iffy (a) {", "if"), None);
    assert_eq!(strip_block_header("if (a)", "if"), None);
    assert_eq!(strip_paren_block_header("(f(a)) {"), Some("f(a)".to_string()));
    let lines = vec!["    var p = P {", "        x: 1,", "        y: 2", "    };", "    return p;"];
    let (line, next) = gather_logical_line(&lines, 0);
    assert_eq!(line.split_whitespace().collect::<Vec<_>>().join(" "), "var p = P { x: 1, y: 2 };");
    assert_eq!(next, 4);
}

#[test]
fn methods_and_attributes() {
    assert_eq!(
        parse_receiver_prefix(" (self Point) norm(): int {"),
        (Some("Point".to_string()), "norm(): int {")
    );
    for tail in ["norm(p: Point)", "(self) norm()", "(this Point) norm()", "(self A B) f()"] {
        assert_eq!(parse_receiver_prefix(tail), (None, tail));
    }
    let functions = parse_functions(
        "@inline\n@method_id(42)\nfun (self Point) norm(k: int): int {\n    return k;\n}\nfun free() {\n}\n",
        "m.tolk",
    );
    assert_eq!(functions.len(), 2);
    assert_eq!(functions[0].name, "Point.norm");
    assert_eq!(functions[0].method_id, Some(42));
    assert_eq!(
        functions[0].params,
        vec![
            ("self".to_string(), "Point".to_string()),
            ("k".to_string(), "int".to_string())
        ]
    );
    assert_eq!(functions[1].name, "free");
    assert_eq!(functions[1].method_id, None);
    assert!(functions.iter().all(|f| f.source_path == "m.tolk"));
}

// -- Declarations ----------------------------------------------------------

#[test]
fn unions_have_constructors_and_aliases_have_none() {
    let names = parse_variant_constructors("type Status = Idle | Active(int) | Failed;\ntype Id = int;\n");
    for name in ["Idle", "Active", "Failed"] {
        assert!(names.contains(name));
    }
    assert!(!names.contains("int"));
    assert!(!names.contains("Status"));
    let ops = trace("type S = A | B;\ntype T = C;\nfun main(): int {\n    var a = A { x: 1 };\n    var c = C { x: 2 };\n    return 0;\n}\n");
    assert_eq!(vars(&ops), vec!["a=A{1}", "c={2}"]);
}

#[test]
fn the_messages_of_a_directive() {
    let codes = |s: &str| parse_multi_message_directive(Some(s));
    assert_eq!(codes("// @recorder:messages 1 2, 0x10 -3.\n"), Some(vec![1, 2, 16, -3]));
    assert_eq!(codes("fun f() {}\n  ;; @recorder:messages 7\n"), Some(vec![7]));
    assert_eq!(codes("// @recorder:messages 1 x\n// @recorder:messages 2\n"), None);
    assert_eq!(codes("// messages 1\n"), None);
    assert_eq!(parse_multi_message_directive(None), None);
}

#[test]
fn an_entry_point_takes_each_message() {
    let ops = trace(
        "// @recorder:messages 5 6\nfun onInternalMessage(value: coin, body: slice) {\n    var op: int = body.loadInt(32);\n}\nfun onExternalMessage(body: slice) {\n    var op: int = body.loadInt(32);\n}\n",
    );
    assert_eq!(vars(&ops), vec!["op=5", "op=6", "op=0"]);
    let calls = ops.iter().filter(|op| matches!(op, TraceOp::Call)).count();
    assert_eq!(calls, 2);
}

#[test]
fn the_arguments_of_an_entry_point() {
    assert!(matches!(synthesize_entry_arg("coin", None), Value::Coin(1_000_000_000)));
    assert!(matches!(
        synthesize_entry_arg("address", None),
        Value::Address { workchain: 0, hash: 0xBEEF }
    ));
    assert!(matches!(
        synthesize_entry_arg("cell", Some(1)),
        Value::Cell { payload, refs } if payload == [0xCAFE] && refs.is_empty()
    ));
    assert!(matches!(
        synthesize_entry_arg("slice", Some(9)),
        Value::Slice { payload, pos: 0, ref_pos: 0, .. } if payload == [9]
    ));
    assert!(matches!(
        synthesize_entry_arg("slice", None),
        Value::Slice { payload, .. } if payload.is_empty()
    ));
    assert!(matches!(synthesize_entry_arg("int", Some(4)), Value::Int(0)));
}

// -- Values ----------------------------------------------------------------

#[test]
fn arithmetic_on_the_machine() {
    let mut known: Scope<i64> = Scope::new();
    known.insert("x".to_string(), -7);
    for (text, value) in [
        ("x / 2", -4),
        ("x % 2", 1),
        ("2 + 3 * 4", 14),
        ("(2 + 3) * 4", 20),
        ("10 - 3 - 2", 5),
        ("-x", 7),
        ("6 & 3", 2),
        ("6 | 3", 7),
        ("6 ^ 3", 5),
        ("~5", -6),
        ("1 << 10", 1024),
        ("1025 >> 3", 128),
        ("x < 0", 1),
        ("x >= 0", 0),
        ("32768", 32768),
        ("-9223372036854775807", -9223372036854775807),
    ] {
        assert_eq!(tvm_eval_expr(text, &known), Some(value), "{text}");
    }
}

#[test]
fn cells_give_back_what_was_stored() {
    let done = |outcome: MethodOutcome| match outcome {
        MethodOutcome::Done { result, advanced } => (result, advanced),
        other => panic!("{other:?}"),
    };
    let mut builder = Value::Builder { payload: vec![], refs: vec![] };
    for n in [5, -6] {
        builder = done(apply_method("storeInt", &builder, Some(&Value::Int(n)))).0;
    }
    for n in [1, 2] {
        let target = Value::Cell { payload: vec![n], refs: vec![vec![99]] };
        builder = done(apply_method("storeRef", &builder, Some(&target))).0;
    }
    let cell = done(apply_method("endCell", &builder, None)).0;
    let mut slice = done(apply_method("beginParse", &cell, None)).0;
    for n in [5, -6, 0] {
        let (got, next) = done(apply_method("loadInt", &slice, None));
        assert!(matches!(got, Value::Int(m) if m == n));
        slice = next.unwrap();
    }
    for n in [vec![1], vec![2], vec![]] {
        let (got, next) = done(apply_method("loadRef", &slice, None));
        assert!(matches!(got, Value::Cell { payload, refs } if payload == n && refs.is_empty()));
        slice = next.unwrap();
    }
    assert!(matches!(apply_method("nothing", &cell, None), MethodOutcome::Unknown));
    assert!(matches!(apply_method("loadInt", &cell, None), MethodOutcome::Refused));
    assert!(matches!(apply_method("endCell", &Value::Int(1), None), MethodOutcome::Refused));
}

#[test]
fn cells_give_back_what_was_stored_however_it_is_mixed() {
    let done = |outcome: MethodOutcome| match outcome {
        MethodOutcome::Done { result, advanced } => (result, advanced),
        other => panic!("{other:?}"),
    };
    let target = |n: i64| Value::Cell { payload: vec![n, n + 1], refs: vec![vec![99]] };
    let mut builder = Value::Builder { payload: vec![], refs: vec![] };
    builder = done(apply_method("storeRef", &builder, Some(&target(10)))).0;
    builder = done(apply_method("storeInt", &builder, Some(&Value::Int(5)))).0;
    builder = done(apply_method("storeMaybeRef", &builder, Some(&target(20)))).0;
    builder = done(apply_method("storeUint", &builder, Some(&Value::Int(-6)))).0;
    let cell = done(apply_method("endCell", &builder, None)).0;
    let mut slice = done(apply_method("beginParse", &cell, None)).0;
    let mut ints = Vec::new();
    let mut refs = Vec::new();
    for method in [
        "loadInt", "loadRef", "loadAddress", "loadUint", "loadMaybeRef", "loadRef", "loadInt",
    ] {
        let (got, next) = done(apply_method(method, &slice, None));
        match got {
            Value::Int(n) => ints.push(n),
            Value::Cell { payload, refs: inner } => {
                assert!(inner.is_empty());
                refs.push(payload);
            }
            other => panic!("{other:?}"),
        }
        slice = next.unwrap();
    }
    assert_eq!(ints, vec![5, -6, 0, 0]);
    assert_eq!(refs, vec![vec![10, 11], vec![20, 21], vec![]]);
}

#[test]
fn payloads_are_shown() {
    assert_eq!(format_payload("Cell", &vec![]), "Cell([])");
    assert_eq!(format_payload("Cell", &vec![1, -2]), "Cell([1, -2])");
    assert_eq!(
        format_payload_with_refs("Cell", &vec![1], &vec![]),
        format_payload("Cell", &vec![1])
    );
    assert_eq!(
        format_payload_with_refs("Builder", &vec![1], &vec![vec![2], vec![]]),
        "Builder([1]) refs=[Cell([2]), Cell([])]"
    );
    assert_eq!(
        body("    var t = \"h\u{e9}\";\n    var h = 0x\"00ff\";"),
        vec!["t=Slice<text> \"h\u{e9}\"", "h=Slice<hex> 0x\"00ff\""]
    );
}

#[test]
fn integers_take_the_declared_type() {
    let ops = trace("fun main(): int {\n    var c: coin = 5;\n    var a: address = 6;\n    var b: bool = 1;\n    return 0;\n}\n");
    assert_eq!(vars(&ops), vec!["c=5", "a={0, 6}", "b=1"]);
    let ids: Vec<usize> = ops
        .iter()
        .filter_map(|op| match op {
            TraceOp::Variable { value: Record::Int { type_id, .. }, .. } => Some(*type_id),
            _ => None,
        })
        .collect();
    assert_eq!(ids, vec![3, 1]);
}
