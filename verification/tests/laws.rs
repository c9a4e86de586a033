//! The laws of the library on concrete values.

use codetracer_ton_recorder::ast::{GateMode, Statement};
use codetracer_ton_recorder::brackets::split_top_level_commas;
use codetracer_ton_recorder::functions::parse_functions;
use codetracer_ton_recorder::interp::BlockExit;
use codetracer_ton_recorder::loader::SourceFile;
use codetracer_ton_recorder::names::NameSet;
use codetracer_ton_recorder::numeral::{hex_string, i64_to_string, parse_i64, u64_to_string};
use codetracer_ton_recorder::ops::{EventKind, Record, TolkTracer, TraceOp, TypeKind};
use codetracer_ton_recorder::parser::gather_logical_line;
use codetracer_ton_recorder::replay::parse_boc;
use codetracer_ton_recorder::scope::Scope;
use codetracer_ton_recorder::source_map::SourceMap;
use codetracer_ton_recorder::stack_tracker::StackTracker;
use codetracer_ton_recorder::statement::parse_statement;
use codetracer_ton_recorder::syntax::{
    parse_call_with_args, parse_method_call, parse_struct_literal, parse_tuple_literal,
};
use codetracer_ton_recorder::value::Value;

fn trace_to(source: &str, depth: u32) -> Vec<TraceOp> {
    let none: Vec<SourceFile> = Vec::new();
    TolkTracer::trace_program("p.tolk", source, &none, depth).unwrap()
}

fn trace(source: &str) -> Vec<TraceOp> {
    trace_to(source, 100)
}

fn ints(ops: &[TraceOp]) -> Vec<(&str, i64)> {
    ops.iter()
        .filter_map(|op| match op {
            TraceOp::Variable { name, value: Record::Int { i, .. } } => Some((name.as_str(), *i)),
            _ => None,
        })
        .collect()
}

const PROGRAM: &str = "struct Point {
    x: int
    y: int
}

fun sum(p: Point, k: int): int {
    var total: int = p.x + p.y + k;
    return total;
}

fun keep(n: int): int {
    set_data(beginCell().storeInt(n, 32).endCell());
    return n;
}

fun main(): int {
    var p = Point { x: 3, y: 4 };
    var t = (1, 2);
    var s: int = sum(p, 5);
    var k: int = keep(s);
    return k;
}
";

#[test]
fn a_rendered_integer_is_read_back() {
    for n in [0, 9, 10, -1, 1_000_000, i64::MIN, i64::MAX] {
        assert_eq!(i64_to_string(n), n.to_string());
        assert_eq!(parse_i64(&i64_to_string(n)), Ok(n));
    }
    assert_eq!(u64_to_string(u64::MAX), u64::MAX.to_string());
    assert_eq!(hex_string(&vec![0x00, 0x0f, 0xf0, 0xab]), "000ff0ab");
}

#[test]
fn a_greater_depth_gives_the_same_trace() {
    let trace = format!("{:?}", trace_to(PROGRAM, 20));
    for depth in [21, 50, 1000] {
        assert_eq!(trace, format!("{:?}", trace_to(PROGRAM, depth)));
    }
}

fn ids(record: &Record, out: &mut Vec<usize>) {
    match record {
        Record::Int { type_id, .. } | Record::Raw { type_id, .. } => out.push(*type_id),
        Record::Tuple { elements, type_id } => {
            out.push(*type_id);
            for e in elements {
                ids(e, out);
            }
        }
        Record::Struct { field_values, type_id } => {
            out.push(*type_id);
            for e in field_values {
                ids(e, out);
            }
        }
        Record::Variant { contents, type_id, .. } => {
            out.push(*type_id);
            ids(contents, out);
        }
        Record::Nothing => {}
    }
}

#[test]
fn a_trace_is_well_formed() {
    let ops = trace(PROGRAM);
    let mut types: Vec<&str> = Vec::new();
    let mut open: i64 = 0;
    for (i, op) in ops.iter().enumerate() {
        let mut used = Vec::new();
        match op {
            TraceOp::Type { name, .. } => {
                assert!(!types.contains(&name.as_str()));
                types.push(name);
            }
            TraceOp::Variable { value, .. } | TraceOp::Arg { value, .. } => ids(value, &mut used),
            TraceOp::Return { value } => {
                ids(value, &mut used);
                open -= 1;
                assert_eq!(open < 0, i + 1 == ops.len());
            }
            TraceOp::Call => open += 1,
            _ => {}
        }
        assert!(used.iter().all(|id| *id < types.len()));
    }
    assert_eq!(&types[..3], &["int", "bool", "Tuple"]);
    assert!(matches!(ops.last(), Some(TraceOp::Return { value: Record::Nothing })));
}

#[test]
fn the_entry_point_is_no_call() {
    let ops = trace(PROGRAM);
    assert!(matches!(&ops[0], TraceOp::Type { kind: TypeKind::Int, name } if name == "int"));
    assert!(matches!(&ops[2], TraceOp::Type { kind: TypeKind::Sequence, name } if name == "Tuple"));
    assert!(matches!(&ops[3], TraceOp::Function { name, line: 16, .. } if name == "main"));
    assert!(matches!(&ops[4], TraceOp::Step { line: 17, .. }));
}

#[test]
fn arguments_are_the_values_of_the_parameters() {
    let ops = trace(PROGRAM);
    let call = ops.iter().position(|op| matches!(op, TraceOp::Call)).unwrap();
    assert!(matches!(
        &ops[call - 2],
        TraceOp::Arg { name, value: Record::Struct { .. } } if name == "p"
    ));
    assert!(matches!(
        &ops[call - 1],
        TraceOp::Arg { name, value: Record::Int { i: 5, .. } } if name == "k"
    ));
    assert_eq!(ints(&ops), vec![("total", 12), ("s", 12), ("k", 12)]);
}

#[test]
fn a_missing_argument_has_no_value() {
    let ops = trace("fun f(a: int, b: int): int {\n    var x: int = a;\n    var y: int = b;\n    return x;\n}\nfun main(): int {\n    return f(1);\n}\n");
    assert!(ops
        .iter()
        .any(|op| matches!(op, TraceOp::Arg { name, value: Record::Nothing } if name == "b")));
    assert_eq!(ints(&ops), vec![("x", 1)]);
}

#[test]
fn statements_begin_with_their_step() {
    let functions = parse_functions(
        "fun f() {\n    var a: int = 1;\n    if (a) {\n        a = 2;\n    }\n    return a;\n}\n",
        "f.tolk",
    );
    let mut tracer = TolkTracer::new(NameSet::new());
    let mut env: Scope<Value> = Scope::new();
    let exit = tracer
        .execute_block(&functions, 50, &mut env, "f.tolk", &functions[0].body)
        .unwrap();
    assert!(matches!(exit, BlockExit::Returned(Some(Value::Int(2)))));
    let lines: Vec<u32> = tracer
        .into_ops()
        .iter()
        .filter_map(|op| match op {
            TraceOp::Step { line, .. } => Some(*line),
            _ => None,
        })
        .collect();
    assert_eq!(lines, vec![2, 3, 4, 6]);
}

#[test]
fn a_recording_only_grows() {
    let functions = parse_functions("fun f(n: int): int {\n    return n + 1;\n}\n", "f.tolk");
    let mut tracer = TolkTracer::new(NameSet::new());
    tracer.ensure_type_id(TypeKind::Int, "int");
    tracer.emit(TraceOp::Step { path: "f.tolk".to_string(), line: 9 });
    let result = tracer
        .evaluate_function(&functions, 50, &functions[0], false, &vec![Value::Int(4)])
        .unwrap();
    assert!(matches!(result, Some(Value::Int(5))));
    let ops = tracer.into_ops();
    assert!(matches!(&ops[0], TraceOp::Type { .. }));
    assert!(matches!(&ops[1], TraceOp::Step { line: 9, .. }));
    let calls = ops.iter().filter(|op| matches!(op, TraceOp::Call)).count();
    let closed = ops.iter().filter(|op| matches!(op, TraceOp::Return { .. })).count();
    assert_eq!((calls, closed), (1, 1));
}

#[test]
fn a_variable_keeps_the_shape_of_its_value() {
    let functions = Vec::new();
    let mut tracer = TolkTracer::new(NameSet::new());
    let mut env: Scope<Value> = Scope::new();
    env.insert("t".to_string(), Value::Tuple(vec![Value::Coin(1), Value::Int(2)]));
    let v = tracer.eval_expr_to_value(&functions, 1, &mut env, "t").unwrap();
    assert!(matches!(
        v,
        Some(Value::Tuple(e)) if matches!(&e[..], [Value::Coin(1), Value::Int(2)])
    ));
    assert!(tracer.into_ops().is_empty());
}

#[test]
fn a_cast_changes_no_value() {
    let functions = Vec::new();
    let mut tracer = TolkTracer::new(NameSet::new());
    let mut env: Scope<Value> = Scope::new();
    env.insert("x".to_string(), Value::Int(20));
    for text in ["x + 1", "x + 1 as coin", "x as int + 1"] {
        let v = tracer.eval_expr(&functions, 10, &mut env, text).unwrap();
        assert_eq!(v, Some(21), "{text}");
    }
}

#[test]
fn the_first_matching_arm_runs() {
    let ops = trace("fun main(): int {\n    var s = A { v: 1 };\n    match (s) {\n        B => { x = 1; }\n        A(n) => { x = 2; }\n        A(n) => { x = 3; }\n    }\n    return 0;\n}\n");
    assert_eq!(ints(&ops), vec![("x", 2)]);
}

#[test]
fn storage_gives_back_what_was_stored() {
    let ops = trace("fun main(): int {\n    var a: int = get_data().beginParse().loadInt(32);\n    set_data(beginCell().storeInt(7, 32).endCell());\n    var b: int = load_data().beginParse().loadInt(32);\n    return b;\n}\n");
    assert_eq!(ints(&ops), vec![("a", 0), ("b", 7)]);
    let events: Vec<(EventKind, &str, &str)> = ops
        .iter()
        .filter_map(|op| match op {
            TraceOp::Event { channel, metadata, content } => {
                Some((*channel, metadata.as_str(), content.as_str()))
            }
            _ => None,
        })
        .collect();
    assert_eq!(
        events,
        vec![
            (EventKind::Read, "TolkStorage", "get_data: Cell([])"),
            (EventKind::Write, "TolkStorage", "set_data: Cell([7])"),
            (EventKind::Read, "TolkStorage", "load_data: Cell([7])"),
        ]
    );
}

#[test]
fn a_bag_of_cells_gives_back_its_payload() {
    let payload = vec![1, 2, 3];
    let mut bytes = vec![0xb5, 0xee, 0x9c, 0x72];
    bytes.extend(&payload);
    assert_eq!(parse_boc(&bytes).unwrap(), payload);
    bytes[3] = 0x73;
    assert!(parse_boc(&bytes).is_err());
}

#[test]
fn lines_of_a_source_are_counted_in_bytes() {
    let source = "\u{e9}\u{e9}\nb\n\nd";
    let map = SourceMap::from_source("s.tolk", source);
    assert_eq!(map.line_count(), 4);
    assert_eq!(map.source_code(), source);
    let lines: Vec<u32> = (0..=9).map(|i| map.byte_to_line(i)).collect();
    assert_eq!(lines, vec![1, 1, 1, 1, 1, 2, 2, 3, 4, 4]);
    assert_eq!(map.byte_to_line(1000), 4);
}

fn stack(entries: &[(i64, Option<&str>)]) -> StackTracker {
    let mut tracker = StackTracker::new();
    for (value, name) in entries {
        tracker.push(*value, name.map(|s| s.to_string()));
    }
    tracker
}

#[test]
fn stack_operations_undo_and_keep() {
    let mut tracker = stack(&[(1, Some("a")), (2, None), (3, Some("a"))]);
    let before = format!("{tracker:?}");
    assert_eq!(tracker.lookup("a"), Some(3));
    tracker.apply_swap(0, 2);
    assert_eq!(tracker.lookup("a"), Some(1));
    tracker.apply_swap(2, 0);
    assert_eq!(format!("{tracker:?}"), before);
    tracker.apply_dup(2);
    assert_eq!(tracker.depth(), 4);
    assert_eq!(tracker.pop(), Some((1, Some("a".to_string()))));
    assert_eq!(format!("{tracker:?}"), before);
    tracker.push(9, None);
    assert_eq!(tracker.pop(), Some((9, None)));
    assert_eq!(format!("{tracker:?}"), before);
}

#[test]
fn bindings_of_a_scope() {
    let mut scope: Scope<i64> = Scope::new();
    scope.insert("a".to_string(), 1);
    scope.insert("b".to_string(), 2);
    scope.insert("a".to_string(), 3);
    assert_eq!(scope.get("a"), Some(&3));
    assert_eq!(scope.remove("a"), Some(3));
    assert_eq!(scope.remove("a"), None);
    assert!(!scope.contains_key("a"));
    assert_eq!(scope.get("b"), Some(&2));
}

#[test]
fn statements_are_read_as_they_are_written() {
    for e in ["1", "f(a, b) == c", "(x = y)", "\"a;b\"", "P { x: 1 }", "a <= b"] {
        for keyword in ["var", "val"] {
            match parse_statement(&format!("{keyword} n_1: (int, T<int>) = {e};"), 7) {
                Some(Statement::VarBinding { name, ty_name, expr, line: 7 }) => {
                    assert_eq!(name, "n_1");
                    assert_eq!(ty_name.as_deref(), Some("(int, T<int>)"));
                    assert_eq!(expr, e);
                }
                other => panic!("{other:?}"),
            }
        }
        match parse_statement(&format!("var x = {e};"), 7) {
            Some(Statement::VarBinding { name, ty_name: None, expr, .. }) => {
                assert_eq!((name.as_str(), expr.as_str()), ("x", e));
            }
            other => panic!("{other:?}"),
        }
        match parse_statement(&format!("x = {e};"), 7) {
            Some(Statement::Assign { name, expr, .. }) => {
                assert_eq!((name.as_str(), expr.as_str()), ("x", e));
            }
            other => panic!("{other:?}"),
        }
        assert!(matches!(
            parse_statement(&format!("return {e};"), 7),
            Some(Statement::Return { expr, .. }) if expr == e
        ));
        assert!(matches!(
            parse_statement(&format!("throw {e};"), 7),
            Some(Statement::Throw { code, .. }) if code == e
        ));
    }
    for (keyword, expected) in [("throwIf", GateMode::If), ("throwUnless", GateMode::Unless)] {
        match parse_statement(&format!("{keyword}(7, a, f(b, c));"), 7) {
            Some(Statement::GatedThrow { code, condition, mode, .. }) => {
                assert_eq!((code.as_str(), condition.as_str()), ("7", "a, f(b, c)"));
                assert_eq!(mode, expected);
            }
            other => panic!("{other:?}"),
        }
    }
}

#[test]
fn lists_are_read_as_they_are_written() {
    let items = ["1", "f(a, b)", "(2, [3, 4])", "P { x: 1, y: 2 }"];
    let list = items.join(", ");
    assert_eq!(split_top_level_commas(&list), items);
    let call = format!("name_1({list})");
    assert_eq!(
        parse_call_with_args(&call),
        Some(("name_1", items.iter().map(|s| s.to_string()).collect()))
    );
    let call = format!("g(x).y.m({list})");
    assert_eq!(
        parse_method_call(&call),
        Some(("g(x).y", "m", items.iter().map(|s| s.to_string()).collect()))
    );
    assert_eq!(
        parse_tuple_literal(&format!("({list})")),
        Some(items.iter().map(|s| s.to_string()).collect())
    );
    let fields: Vec<String> = items.iter().map(|e| format!("f: {e}")).collect();
    assert_eq!(
        parse_struct_literal(&format!("P {{{}}}", fields.join(", "))),
        Some((
            "P".to_string(),
            items.iter().map(|e| ("f".to_string(), e.to_string())).collect()
        ))
    );
}

#[test]
fn a_value_is_recorded_alike() {
    let mut variants = NameSet::new();
    variants.insert("V");
    let mut tracer = TolkTracer::new(variants);
    tracer.ensure_type_id(TypeKind::Int, "int");
    tracer.ensure_type_id(TypeKind::Sequence, "Tuple");
    let value = Value::Tuple(vec![
        Value::Struct {
            ty_name: "V".to_string(),
            fields: vec![("c".to_string(), Value::Coin(1))],
        },
        Value::Address { workchain: 0, hash: 2 },
        Value::Cell { payload: vec![], refs: vec![] },
    ]);
    let first = format!("{:?}", tracer.value_to_record(&value));
    tracer.ensure_raw_type_id("other");
    assert_eq!(first, format!("{:?}", tracer.value_to_record(&value)));
    let names: Vec<String> = tracer
        .into_ops()
        .into_iter()
        .map(|op| match op {
            TraceOp::Type { name, .. } => name,
            other => panic!("{other:?}"),
        })
        .collect();
    assert_eq!(names, vec!["int", "Tuple", "coin", "V", "TolkAddress", "TolkCell", "other"]);
}

#[test]
fn a_logical_line_is_gathered_until_it_balances() {
    let lines = vec!["  a = f(b);", "c = (", " d,", "e )", "}", "g);", "}", "h"];
    let gather = |start: usize| gather_logical_line(&lines, start);
    assert_eq!(gather(0), ("a = f(b);".to_string(), 1));
    assert_eq!(gather(1), ("c = ( d, e )".to_string(), 3));
    assert_eq!(gather(5), ("g);".to_string(), 1));
    assert_eq!(gather(6), ("} h".to_string(), 2));
}

#[test]
fn loads_of_a_variable_give_back_stores() {
    let ops = trace(
        "fun main(): int {
    var child = beginCell().storeInt(9, 8).endCell();
    var b = beginCell();
    var b1 = b.storeRef(child);
    var b2 = b1.storeInt(3, 32);
    var b3 = b2.storeInt(4, 32);
    var s = b3.endCell().beginParse();
    var one: int = s.loadInt(32);
    var r = s.loadRef();
    var two: int = s.loadInt(32);
    var none = s.loadRef();
    var zero: int = s.loadInt(32);
    return one + two + zero;
}
",
    );
    let shown: Vec<String> = ops
        .iter()
        .filter_map(|op| match op {
            TraceOp::Variable { name, value: Record::Int { i, .. } } => Some(format!("{name}={i}")),
            TraceOp::Variable { name, value: Record::Raw { r, .. } } if name == "r" || name == "none" => {
                Some(format!("{name}={r}"))
            }
            _ => None,
        })
        .collect();
    assert_eq!(shown, vec!["one=3", "r=Cell([9])", "two=4", "none=Cell([])", "zero=0"]);
}
