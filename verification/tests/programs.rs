//! Whole programs and what their traces show.

use codetracer_ton_recorder::loader::SourceFile;
use codetracer_ton_recorder::ops::{EventKind, Record, TolkTracer, TraceOp, TypeKind};

const DEPTH: u32 = 100;

fn trace(source: &str) -> Vec<TraceOp> {
    let none: Vec<SourceFile> = Vec::new();
    TolkTracer::trace_program("program.tolk", source, &none, DEPTH).unwrap()
}

/// The functions in the order of their first registration.
fn functions(ops: &[TraceOp]) -> Vec<&str> {
    let mut out: Vec<&str> = Vec::new();
    for op in ops {
        if let TraceOp::Function { name, .. } = op {
            if !out.contains(&name.as_str()) {
                out.push(name);
            }
        }
    }
    out
}

/// The steps, with the one on which every trace begins.
fn steps(ops: &[TraceOp]) -> usize {
    1 + ops.iter().filter(|op| matches!(op, TraceOp::Step { .. })).count()
}

fn events(ops: &[TraceOp]) -> Vec<(EventKind, &str, &str)> {
    let mut out = Vec::new();
    for op in ops {
        if let TraceOp::Event { channel, metadata, content } = op {
            out.push((*channel, metadata.as_str(), content.as_str()));
        }
    }
    out
}

/// The functions called, in order.
fn calls(ops: &[TraceOp]) -> Vec<&str> {
    let mut out = Vec::new();
    let mut last = "";
    for op in ops {
        match op {
            TraceOp::Function { name, .. } => last = name,
            TraceOp::Call => out.push(last),
            _ => {}
        }
    }
    out
}

/// The functions left with what they return, in order. The last return closes
/// the trace itself and is not among them.
fn exits(ops: &[TraceOp]) -> Vec<(&str, String)> {
    let mut out = Vec::new();
    let mut open: Vec<&str> = Vec::new();
    let mut last = "";
    for op in ops {
        match op {
            TraceOp::Function { name, .. } => last = name,
            TraceOp::Call => open.push(last),
            TraceOp::Return { value } => {
                if let Some(name) = open.pop() {
                    out.push((name, show(value)));
                }
            }
            _ => {}
        }
    }
    out
}

/// The steps, the calls, their ends and the events, all counted together.
fn total(ops: &[TraceOp]) -> usize {
    steps(ops) + calls(ops).len() + exits(ops).len() + events(ops).len()
}

fn show(record: &Record) -> String {
    match record {
        Record::Int { i, .. } => format!("{i}"),
        Record::Tuple { elements, .. } => {
            format!("({})", elements.iter().map(show).collect::<Vec<_>>().join(", "))
        }
        Record::Struct { field_values, .. } => {
            format!("{{{}}}", field_values.iter().map(show).collect::<Vec<_>>().join(", "))
        }
        Record::Variant { discriminator, contents, .. } => {
            format!("{discriminator}{}", show(contents))
        }
        Record::Raw { r, .. } => r.clone(),
        Record::Nothing => "nothing".to_string(),
    }
}

/// The variables and arguments with their values, in order.
fn vars(ops: &[TraceOp]) -> Vec<String> {
    let mut out = Vec::new();
    for op in ops {
        match op {
            TraceOp::Variable { name, value } | TraceOp::Arg { name, value } => {
                out.push(format!("{name}={}", show(value)));
            }
            _ => {}
        }
    }
    out
}

fn args(ops: &[TraceOp]) -> Vec<String> {
    let mut out = Vec::new();
    for op in ops {
        if let TraceOp::Arg { name, value } = op {
            out.push(format!("{name}={}", show(value)));
        }
    }
    out
}

fn pairs<'a>(list: &[(&'a str, &str)]) -> Vec<(&'a str, String)> {
    list.iter().map(|(a, b)| (*a, b.to_string())).collect()
}

const FLOW: &str = "fun compute(): int {
    var a: int = 10;
    var b: int = 32;
    var sum_val: int = a + b;
    var doubled: int = sum_val * 2;
    var final_result: int = doubled + a;
    return final_result;
}

fun main(): int {
    return compute();
}
";

#[test]
fn test_flow_test_via_ct_print_full() {
    let ops = trace(FLOW);
    assert_eq!(functions(&ops), vec!["main", "compute"]);
    assert_eq!(steps(&ops), 8);
    assert_eq!(total(&ops), 10);
    assert!(events(&ops).is_empty());
    assert_eq!(calls(&ops), vec!["compute"]);
    assert_eq!(
        vars(&ops),
        vec!["a=10", "b=32", "sum_val=42", "doubled=84", "final_result=94"]
    );
    assert_eq!(exits(&ops), pairs(&[("compute", "94")]));
}

#[test]
fn test_nested_calls_test_via_ct_print_full() {
    let ops = trace(
        "fun inner(): int {
    var a: int = 1;
    var b: int = 2;
    var c: int = a + b;
    return c;
}

fun middle(): int {
    var x: int = inner();
    var y: int = x + 10;
    return y;
}

fun outer(): int {
    var p: int = middle();
    var q: int = p + 100;
    return q;
}

fun compute(): int {
    var result: int = outer();
    return result;
}

fun main(): int {
    return compute();
}
",
    );
    assert_eq!(functions(&ops), vec!["main", "compute", "outer", "middle", "inner"]);
    assert_eq!(steps(&ops), 14);
    assert_eq!(total(&ops), 22);
    assert!(events(&ops).is_empty());
    assert_eq!(calls(&ops), vec!["compute", "outer", "middle", "inner"]);
    assert_eq!(
        vars(&ops),
        vec!["a=1", "b=2", "c=3", "x=3", "y=13", "p=13", "q=113", "result=113"]
    );
    assert_eq!(
        exits(&ops),
        pairs(&[("inner", "3"), ("middle", "13"), ("outer", "113"), ("compute", "113")])
    );
}

const CONTROL_FLOW: &str = "fun classify(): int {
    var raw: int = 7;
    var sign: int = 0;
    if (raw < 0) {
        sign = -1;
    } else if (raw == 0) {
        sign = 0;
    } else {
        sign = 1;
    }
    return sign;
}

fun loop_sum(): int {
    var total: int = 0;
    var i: int = 0;
    while (i < 4) {
        total = total + i;
        i = i + 1;
    }
    return total;
}

fun repeat_count(): int {
    var counter: int = 0;
    repeat (3) {
        counter = counter + 1;
    }
    return counter;
}

fun do_until_grow(): int {
    var x: int = 1;
    do {
        x = x + x;
    } until (x >= 8);
    return x;
}

fun compute(): int {
    var sign: int = classify();
    var loop_total: int = loop_sum();
    var repeated: int = repeat_count();
    var grown: int = do_until_grow();
    var combined: int = sign + loop_total + repeated + grown;
    return combined;
}

fun main(): int {
    return compute();
}
";

#[test]
fn test_control_flow_test_via_ct_print_full() {
    let ops = trace(CONTROL_FLOW);
    assert_eq!(
        functions(&ops),
        vec!["main", "compute", "classify", "loop_sum", "repeat_count", "do_until_grow"]
    );
    assert_eq!(steps(&ops), 38);
    assert_eq!(total(&ops), 48);
    assert!(events(&ops).is_empty());
    assert_eq!(
        calls(&ops),
        vec!["compute", "classify", "loop_sum", "repeat_count", "do_until_grow"]
    );
    assert_eq!(
        vars(&ops),
        vec![
            "raw=7",
            "sign=0",
            "sign=1",
            "sign=1",
            "total=0",
            "i=0",
            "total=0",
            "i=1",
            "total=1",
            "i=2",
            "total=3",
            "i=3",
            "total=6",
            "i=4",
            "loop_total=6",
            "counter=0",
            "counter=1",
            "counter=2",
            "counter=3",
            "repeated=3",
            "x=1",
            "x=2",
            "x=4",
            "x=8",
            "grown=8",
            "combined=18",
        ]
    );
    assert_eq!(
        exits(&ops),
        pairs(&[
            ("classify", "1"),
            ("loop_sum", "6"),
            ("repeat_count", "3"),
            ("do_until_grow", "8"),
            ("compute", "18"),
        ])
    );
}

const ERROR_PATHS: &str = "fun safe_compute(): int {
    var a: int = 5;
    var b: int = 7;
    var c: int = a + b;
    return c;
}

fun failing_compute(): int {
    var x: int = 1;
    throw 7;
    return x;
}

fun assert_compute(): int {
    var probe: int = 3;
    assert (probe > 0, 13);
    return probe;
}

fun compute(): int {
    var safe_val: int = safe_compute();
    var bumped: int = safe_val + 100;
    return bumped;
}

fun main(): int {
    return compute();
}
";

#[test]
fn test_error_paths_test_via_ct_print_full() {
    let ops = trace(ERROR_PATHS);
    assert_eq!(functions(&ops), vec!["main", "compute", "safe_compute"]);
    assert_eq!(steps(&ops), 9);
    assert_eq!(total(&ops), 15);
    assert_eq!(calls(&ops), vec!["compute", "safe_compute"]);
    assert_eq!(vars(&ops), vec!["a=5", "b=7", "c=12", "safe_val=12", "bumped=112"]);
    assert_eq!(
        events(&ops),
        vec![
            (EventKind::Error, "TolkThrow", "throw 7"),
            (EventKind::Error, "TolkAssert", "assert: code 13"),
        ]
    );
}

const TUPLES_STRUCTS: &str = "struct Point {
    x: int
    y: int
}

fun sum_pair(): int {
    var pair: (int, int) = (10, 20);
    var first: int = pair.0;
    var second: int = pair.1;
    var pair_sum: int = first + second;
    return pair_sum;
}

fun point_distance_sq(): int {
    var p: Point = Point { x: 3, y: 4 };
    var sq: int = p.x * p.x + p.y * p.y;
    return sq;
}

fun scalar_only(): int {
    var head_val: int = 2;
    var len: int = 3;
    var total: int = head_val + len;
    return total;
}

fun compute(): int {
    var pair_total: int = sum_pair();
    var point_total: int = point_distance_sq();
    var scalar_total: int = scalar_only();
    var grand_total: int = pair_total + point_total + scalar_total;
    return grand_total;
}

fun main(): int {
    return compute();
}
";

#[test]
fn test_tuples_structs_test_via_ct_print_full() {
    let ops = trace(TUPLES_STRUCTS);
    assert_eq!(
        functions(&ops),
        vec!["main", "compute", "sum_pair", "point_distance_sq", "scalar_only"]
    );
    assert_eq!(steps(&ops), 19);
    assert_eq!(total(&ops), 27);
    assert!(events(&ops).is_empty());
    assert_eq!(calls(&ops), vec!["compute", "sum_pair", "point_distance_sq", "scalar_only"]);
    assert_eq!(
        vars(&ops),
        vec![
            "pair=(10, 20)",
            "first=10",
            "second=20",
            "pair_sum=30",
            "pair_total=30",
            "p={3, 4}",
            "sq=25",
            "point_total=25",
            "head_val=2",
            "len=3",
            "total=5",
            "scalar_total=5",
            "grand_total=60",
        ]
    );
    assert_eq!(
        exits(&ops),
        pairs(&[
            ("sum_pair", "30"),
            ("point_distance_sq", "25"),
            ("scalar_only", "5"),
            ("compute", "60"),
        ])
    );
}

const CELL_OPS: &str = "fun encode_payload(): int {
    var payload: int = 42;
    var b = beginCell();
    var b2 = b.storeInt(payload, 32);
    var c = b2.endCell();
    var encoded_marker: int = 1;
    return encoded_marker;
}

fun decode_payload(): int {
    var c = beginCell().storeInt(42, 32).endCell();
    var s = c.beginParse();
    var loaded: int = s.loadInt(32);
    var decoded_marker: int = 2;
    return decoded_marker;
}

fun storage_roundtrip(): int {
    var b = beginCell().storeInt(99, 32);
    var c = b.endCell();
    set_data(c);
    var got = get_data();
    var s = got.beginParse();
    var loaded: int = s.loadInt(32);
    var roundtrip_marker: int = 3;
    return roundtrip_marker;
}

fun compute(): int {
    var encoded: int = encode_payload();
    var decoded: int = decode_payload();
    var rt: int = storage_roundtrip();
    var combined: int = encoded + decoded + rt;
    return combined;
}

fun main(): int {
    return compute();
}
";

#[test]
fn test_cell_ops_test_via_ct_print_full() {
    let ops = trace(CELL_OPS);
    assert_eq!(
        functions(&ops),
        vec!["main", "compute", "encode_payload", "decode_payload", "storage_roundtrip"]
    );
    assert_eq!(steps(&ops), 26);
    assert_eq!(total(&ops), 36);
    assert_eq!(
        calls(&ops),
        vec!["compute", "encode_payload", "decode_payload", "storage_roundtrip"]
    );
    assert_eq!(
        vars(&ops),
        vec![
            "payload=42",
            "b=Builder([])",
            "b2=Builder([42])",
            "c=Cell([42])",
            "encoded_marker=1",
            "encoded=1",
            "c=Cell([42])",
            "s=Slice([42]) @0/r0",
            "loaded=42",
            "decoded_marker=2",
            "decoded=2",
            "b=Builder([99])",
            "c=Cell([99])",
            "got=Cell([99])",
            "s=Slice([99]) @0/r0",
            "loaded=99",
            "roundtrip_marker=3",
            "rt=3",
            "combined=6",
        ]
    );
    assert_eq!(
        events(&ops),
        vec![
            (EventKind::Write, "TolkStorage", "set_data: Cell([99])"),
            (EventKind::Read, "TolkStorage", "get_data: Cell([99])"),
        ]
    );
    assert_eq!(
        exits(&ops),
        pairs(&[
            ("encode_payload", "1"),
            ("decode_payload", "2"),
            ("storage_roundtrip", "3"),
            ("compute", "6"),
        ])
    );
}

#[test]
fn test_arg_passing_test_via_ct_print_full() {
    let ops = trace(
        "fun add(a: int, b: int): int {
    var sum: int = a + b;
    return sum;
}

fun square(n: int): int {
    var sq: int = n * n;
    return sq;
}

fun chain_calls(seed: int): int {
    var doubled: int = add(seed, seed);
    var squared: int = square(doubled);
    return squared;
}

fun compute(): int {
    var base: int = 3;
    var sum: int = add(base, 4);
    var sq: int = square(base);
    var chained: int = chain_calls(base);
    var combined: int = sum + sq + chained;
    return combined;
}

fun main(): int {
    return compute();
}
",
    );
    assert_eq!(functions(&ops), vec!["main", "compute", "add", "square", "chain_calls"]);
    assert_eq!(steps(&ops), 19);
    assert_eq!(total(&ops), 31);
    assert!(events(&ops).is_empty());
    assert_eq!(
        calls(&ops),
        vec!["compute", "add", "square", "chain_calls", "add", "square"]
    );
    assert_eq!(
        vars(&ops),
        vec![
            "base=3",
            "a=3",
            "b=4",
            "sum=7",
            "sum=7",
            "n=3",
            "sq=9",
            "sq=9",
            "seed=3",
            "a=3",
            "b=3",
            "sum=6",
            "doubled=6",
            "n=6",
            "sq=36",
            "squared=36",
            "chained=36",
            "combined=52",
        ]
    );
    assert_eq!(
        args(&ops),
        vec!["a=3", "b=4", "n=3", "seed=3", "a=3", "b=3", "n=6"]
    );
    assert_eq!(
        exits(&ops),
        pairs(&[
            ("add", "7"),
            ("square", "9"),
            ("add", "6"),
            ("square", "36"),
            ("chain_calls", "36"),
            ("compute", "52"),
        ])
    );
}

#[test]
fn test_persistent_storage_test_via_ct_print_full() {
    let ops = trace(
        "struct Storage {
    counter: int
    owner: int
}

fun load_state(): Storage {
    var raw = load_data();
    var s = raw.beginParse();
    var counter: int = s.loadInt(32);
    var owner: int = s.loadInt(32);
    var st: Storage = Storage { counter: counter, owner: owner };
    return st;
}

fun save_state(st: Storage): int {
    var b = beginCell();
    var b1 = b.storeInt(st.counter, 32);
    var b2 = b1.storeInt(st.owner, 32);
    var c = b2.endCell();
    save_data(c);
    var saved_marker: int = 1;
    return saved_marker;
}

fun bump_counter(): int {
    var st: Storage = load_state();
    var current: int = st.counter;
    var next: int = current + 1;
    var updated: Storage = Storage { counter: next, owner: st.owner };
    var ack: int = save_state(updated);
    return next;
}

fun compute(): int {
    var seed_b = beginCell();
    var seed_b1 = seed_b.storeInt(7, 32);
    var seed_b2 = seed_b1.storeInt(42, 32);
    var seed_c = seed_b2.endCell();
    save_data(seed_c);
    var bumped: int = bump_counter();
    return bumped;
}

fun main(): int {
    compute();
    return 0;
}
",
    );
    assert_eq!(
        functions(&ops),
        vec!["main", "compute", "bump_counter", "load_state", "save_state"]
    );
    assert_eq!(steps(&ops), 29);
    assert_eq!(total(&ops), 40);
    assert_eq!(calls(&ops), vec!["compute", "bump_counter", "load_state", "save_state"]);
    assert_eq!(
        vars(&ops),
        vec![
            "seed_b=Builder([])",
            "seed_b1=Builder([7])",
            "seed_b2=Builder([7, 42])",
            "seed_c=Cell([7, 42])",
            "raw=Cell([7, 42])",
            "s=Slice([7, 42]) @0/r0",
            "counter=7",
            "owner=42",
            "st={7, 42}",
            "st={7, 42}",
            "current=7",
            "next=8",
            "updated={8, 42}",
            "st={8, 42}",
            "b=Builder([])",
            "b1=Builder([8])",
            "b2=Builder([8, 42])",
            "c=Cell([8, 42])",
            "saved_marker=1",
            "ack=1",
            "bumped=8",
        ]
    );
    assert_eq!(
        events(&ops),
        vec![
            (EventKind::Write, "TolkStorage", "save_data: Cell([7, 42])"),
            (EventKind::Read, "TolkStorage", "load_data: Cell([7, 42])"),
            (EventKind::Write, "TolkStorage", "save_data: Cell([8, 42])"),
        ]
    );
    assert_eq!(
        exits(&ops),
        pairs(&[
            ("load_state", "{7, 42}"),
            ("save_state", "1"),
            ("bump_counter", "8"),
            ("compute", "8"),
        ])
    );
}

#[test]
fn test_contract_entrypoints_test_via_ct_print_full() {
    let ops = trace(
        "fun handle_internal(amount: int): int {
    var doubled: int = amount * 2;
    var ack: int = doubled + 1;
    return ack;
}

fun handle_external(seq: int): int {
    var bumped: int = seq + 10;
    return bumped;
}

fun onInternalMessage(amount: int): int {
    var processed: int = handle_internal(amount);
    return processed;
}

fun onExternalMessage(seq: int): int {
    var processed: int = handle_external(seq);
    return processed;
}
",
    );
    assert_eq!(
        functions(&ops),
        vec!["onInternalMessage", "handle_internal", "onExternalMessage", "handle_external"]
    );
    assert_eq!(steps(&ops), 10);
    assert_eq!(total(&ops), 16);
    assert!(events(&ops).is_empty());
    assert_eq!(calls(&ops), vec!["handle_internal", "onExternalMessage", "handle_external"]);
    assert_eq!(
        vars(&ops),
        vec![
            "amount=0",
            "doubled=0",
            "ack=1",
            "processed=1",
            "seq=0",
            "seq=0",
            "bumped=10",
            "processed=10",
        ]
    );
    assert_eq!(
        exits(&ops),
        pairs(&[
            ("handle_internal", "1"),
            ("handle_external", "10"),
            ("onExternalMessage", "10"),
        ])
    );
}

#[test]
fn test_throw_unless_throw_if_test_via_ct_print_full() {
    let ops = trace(
        "fun guard_amount(value: int): int {
    throwIf(40, value == 0);
    return 1;
}

fun guard_threshold(probe: int): int {
    throwUnless(36, probe >= 7);
    return 1;
}

fun compute(): int {
    var probe_a: int = 5;
    var ok_a: int = guard_amount(probe_a);
    var probe_b: int = 0;
    var ok_b: int = guard_amount(probe_b);
    var probe_c: int = 9;
    var ok_c: int = guard_threshold(probe_c);
    var probe_d: int = 1;
    var ok_d: int = guard_threshold(probe_d);
    var total: int = ok_a + ok_b + ok_c + ok_d;
    return total;
}

fun main(): int {
    return compute();
}
",
    );
    assert_eq!(functions(&ops), vec!["main", "compute", "guard_amount", "guard_threshold"]);
    assert_eq!(steps(&ops), 18);
    assert_eq!(total(&ops), 30);
    assert_eq!(
        calls(&ops),
        vec!["compute", "guard_amount", "guard_amount", "guard_threshold", "guard_threshold"]
    );
    assert_eq!(
        vars(&ops),
        vec![
            "probe_a=5",
            "value=5",
            "ok_a=1",
            "probe_b=0",
            "value=0",
            "probe_c=9",
            "probe=9",
            "ok_c=1",
            "probe_d=1",
            "probe=1",
        ]
    );
    assert_eq!(
        events(&ops),
        vec![
            (EventKind::Error, "TolkThrow", "throwIf: code 40"),
            (EventKind::Error, "TolkThrow", "throwUnless: code 36"),
        ]
    );
    assert_eq!(
        exits(&ops),
        pairs(&[
            ("guard_amount", "1"),
            ("guard_amount", "nothing"),
            ("guard_threshold", "1"),
            ("guard_threshold", "nothing"),
            ("compute", "nothing"),
        ])
    );
}

#[test]
fn test_builder_refs_test_via_ct_print_full() {
    let ops = trace(
        "fun pack_inner(): cell {
    var ib = beginCell();
    var ib1 = ib.storeInt(101, 32);
    var inner = ib1.endCell();
    return inner;
}

fun pack_outer(): cell {
    var inner = pack_inner();
    var ob = beginCell();
    var ob1 = ob.storeInt(200, 32);
    var ob2 = ob1.storeRef(inner);
    var ob3 = ob2.storeAddress(51966);
    var outer = ob3.endCell();
    return outer;
}

fun unpack(c: cell): int {
    var s = c.beginParse();
    var marker: int = s.loadInt(32);
    var sub = s.loadRef();
    var addr = s.loadAddress();
    var sub_s = sub.beginParse();
    var inner_val: int = sub_s.loadInt(32);
    var combined: int = marker + inner_val + addr;
    return combined;
}

fun compute(): int {
    var packed = pack_outer();
    var decoded: int = unpack(packed);
    return decoded;
}

fun main(): int {
    return compute();
}
",
    );
    assert_eq!(functions(&ops), vec!["main", "compute", "pack_outer", "pack_inner", "unpack"]);
    assert_eq!(steps(&ops), 24);
    assert_eq!(total(&ops), 32);
    assert!(events(&ops).is_empty());
    assert_eq!(calls(&ops), vec!["compute", "pack_outer", "pack_inner", "unpack"]);
    assert_eq!(
        vars(&ops),
        vec![
            "ib=Builder([])",
            "ib1=Builder([101])",
            "inner=Cell([101])",
            "inner=Cell([101])",
            "ob=Builder([])",
            "ob1=Builder([200])",
            "ob2=Builder([200]) refs=[Cell([101])]",
            "ob3=Builder([200, 51966]) refs=[Cell([101])]",
            "outer=Cell([200, 51966]) refs=[Cell([101])]",
            "packed=Cell([200, 51966]) refs=[Cell([101])]",
            "c=Cell([200, 51966]) refs=[Cell([101])]",
            "s=Slice([200, 51966]) refs=[Cell([101])] @0/r0",
            "marker=200",
            "sub=Cell([101])",
            "addr=51966",
            "sub_s=Slice([101]) @0/r0",
            "inner_val=101",
            "combined=52267",
            "decoded=52267",
        ]
    );
    assert_eq!(
        exits(&ops),
        pairs(&[
            ("pack_inner", "Cell([101])"),
            ("pack_outer", "Cell([200, 51966]) refs=[Cell([101])]"),
            ("unpack", "52267"),
            ("compute", "52267"),
        ])
    );
}

#[test]
fn test_multiline_struct_test_via_ct_print_full() {
    let ops = trace(
        "struct Point {
    x: int
    y: int
}

fun make_point(): int {
    var p: Point = Point {
        x: 3,
        y: 4
    };
    var sq: int = p.x * p.x + p.y * p.y;
    return sq;
}

fun make_triple(): int {
    var t: (int, int, int) = (
        11,
        22,
        33
    );
    var first: int = t.0;
    var second: int = t.1;
    var third: int = t.2;
    var total: int = first + second + third;
    return total;
}

fun compute(): int {
    var pt: int = make_point();
    var tr: int = make_triple();
    var grand: int = pt + tr;
    return grand;
}

fun main(): int {
    return compute();
}
",
    );
    assert!(events(&ops).is_empty());
    assert_eq!(functions(&ops), vec!["main", "compute", "make_point", "make_triple"]);
    assert_eq!(steps(&ops), 15);
    assert_eq!(total(&ops), 21);
    assert_eq!(calls(&ops), vec!["compute", "make_point", "make_triple"]);
    assert_eq!(
        vars(&ops),
        vec![
            "p={3, 4}",
            "sq=25",
            "pt=25",
            "t=(11, 22, 33)",
            "first=11",
            "second=22",
            "third=33",
            "total=66",
            "tr=66",
            "grand=91",
        ]
    );
    assert_eq!(
        exits(&ops),
        pairs(&[("make_point", "25"), ("make_triple", "66"), ("compute", "91")])
    );
}

#[test]
fn test_function_attributes_test_via_ct_print_full() {
    let ops = trace(
        "@method_id(85143)
fun owner_id(): int {
    return 42;
}

@inline
fun add(a: int, b: int): int {
    return a + b;
}

@inline_ref
fun store_zero(): int {
    return 0;
}

@pure
fun is_positive(x: int): int {
    if (x > 0) {
        return 1;
    }
    return 0;
}

fun compute(): int {
    var oid: int = owner_id();
    var sum: int = add(2, 3);
    var zero: int = store_zero();
    var pos: int = is_positive(7);
    var grand: int = oid + sum + zero + pos;
    return grand;
}

fun main(): int {
    return compute();
}
",
    );
    assert!(events(&ops).is_empty());
    assert_eq!(
        functions(&ops),
        vec!["main", "compute", "owner_id", "add", "store_zero", "is_positive"]
    );
    assert_eq!(steps(&ops), 13);
    assert_eq!(total(&ops), 23);
    assert_eq!(calls(&ops), vec!["compute", "owner_id", "add", "store_zero", "is_positive"]);
    assert_eq!(
        vars(&ops),
        vec!["oid=42", "a=2", "b=3", "sum=5", "zero=0", "x=7", "pos=1", "grand=48"]
    );
    assert_eq!(
        exits(&ops),
        pairs(&[
            ("owner_id", "42"),
            ("add", "5"),
            ("store_zero", "0"),
            ("is_positive", "1"),
            ("compute", "48"),
        ])
    );
}

#[test]
fn test_method_receivers_test_via_ct_print_full() {
    let ops = trace(
        "struct Bag {
    a: int
    b: int
    c: int
}

fun (self Bag) length(): int {
    return 3;
}

fun (self Bag) head(): int {
    return self.a;
}

fun compute(): int {
    var bag: Bag = Bag { a: 10, b: 20, c: 30 };
    var n: int = bag.length();
    var h: int = bag.head();
    var total: int = n + h;
    return total;
}

fun main(): int {
    return compute();
}
",
    );
    assert!(events(&ops).is_empty());
    assert_eq!(functions(&ops), vec!["main", "compute", "Bag.length", "Bag.head"]);
    assert_eq!(steps(&ops), 9);
    assert_eq!(total(&ops), 15);
    assert_eq!(calls(&ops), vec!["compute", "Bag.length", "Bag.head"]);
    assert_eq!(
        vars(&ops),
        vec![
            "bag={10, 20, 30}",
            "self={10, 20, 30}",
            "n=3",
            "self={10, 20, 30}",
            "h=10",
            "total=13",
        ]
    );
    assert_eq!(
        exits(&ops),
        pairs(&[("Bag.length", "3"), ("Bag.head", "10"), ("compute", "13")])
    );
}

#[test]
fn test_variant_constructors_test_via_ct_print_full() {
    let ops = trace(
        "type Status = Pending | Active | Failed;

fun dispatch_pending(): int {
    var s: Status = Pending { placeholder: 0 };
    var result: int = s.placeholder;
    return result;
}

fun dispatch_active(): int {
    var s: Status = Active { n: 7 };
    var result: int = s.n;
    return result;
}

fun dispatch_failed(): int {
    var s: Status = Failed { reason: 13 };
    var result: int = 0 - s.reason;
    return result;
}

fun compute(): int {
    var p: int = dispatch_pending();
    var a: int = dispatch_active();
    var f: int = dispatch_failed();
    var total: int = p + a + f;
    return total;
}

fun main(): int {
    return compute();
}
",
    );
    assert!(events(&ops).is_empty());
    assert_eq!(
        functions(&ops),
        vec!["main", "compute", "dispatch_pending", "dispatch_active", "dispatch_failed"]
    );
    assert_eq!(steps(&ops), 16);
    assert_eq!(total(&ops), 24);
    assert_eq!(
        calls(&ops),
        vec!["compute", "dispatch_pending", "dispatch_active", "dispatch_failed"]
    );
    assert_eq!(
        vars(&ops),
        vec![
            "s=Pending{0}",
            "result=0",
            "p=0",
            "s=Active{7}",
            "result=7",
            "a=7",
            "s=Failed{13}",
            "result=-13",
            "f=-13",
            "total=-6",
        ]
    );
    assert_eq!(
        exits(&ops),
        pairs(&[
            ("dispatch_pending", "0"),
            ("dispatch_active", "7"),
            ("dispatch_failed", "-13"),
            ("compute", "-6"),
        ])
    );
}

#[test]
fn test_bitwise_ops_test_via_ct_print_full() {
    let ops = trace(
        "fun bitwise(): int {
    var a: int = 240;
    var b: int = 15;
    var c: int = a & b;
    var d: int = a | b;
    var e: int = a ^ b;
    var f: int = ~a;
    var g: int = a << 4;
    var h: int = a >> 2;
    var combined: int = (c | d) ^ (e & f);
    return combined;
}

fun main(): int {
    return bitwise();
}
",
    );
    assert!(events(&ops).is_empty());
    assert_eq!(functions(&ops), vec!["main", "bitwise"]);
    assert_eq!(steps(&ops), 12);
    assert_eq!(total(&ops), 14);
    assert_eq!(calls(&ops), vec!["bitwise"]);
    assert_eq!(
        vars(&ops),
        vec![
            "a=240",
            "b=15",
            "c=0",
            "d=255",
            "e=255",
            "f=-241",
            "g=3840",
            "h=60",
            "combined=240",
        ]
    );
    assert_eq!(exits(&ops), pairs(&[("bitwise", "240")]));
}

#[test]
fn test_generics_test_via_ct_print_full() {
    let ops = trace(
        "struct Box<T> {
    value: T
}

fun max<T>(a: T, b: T): T {
    var winner: T = a;
    if (b > a) {
        winner = b;
    }
    return winner;
}

fun take_box(box: Box<int>): int {
    return box.value;
}

fun compute(): int {
    var x: int = max<int>(3, 5);
    var y: int = max<int>(50, 50);
    var b: Box<int> = Box<int> { value: 7 };
    var z: int = take_box(b);
    var total: int = x + y + z;
    return total;
}

fun main(): int {
    return compute();
}
",
    );
    assert!(events(&ops).is_empty());
    assert_eq!(functions(&ops), vec!["main", "compute", "max", "take_box"]);
    assert_eq!(calls(&ops), vec!["compute", "max", "max", "take_box"]);
    assert_eq!(
        vars(&ops),
        vec![
            "a=3",
            "b=5",
            "winner=3",
            "winner=5",
            "x=5",
            "a=50",
            "b=50",
            "winner=50",
            "y=50",
            "b={7}",
            "box={7}",
            "z=7",
            "total=62",
        ]
    );
    assert_eq!(
        exits(&ops),
        pairs(&[("max", "5"), ("max", "50"), ("take_box", "7"), ("compute", "62")])
    );
}

#[test]
fn test_imports_test_via_ct_print_full() {
    let helpers = SourceFile {
        path: "imports_helpers.tolk".to_string(),
        source: "struct Pair {
    a: int
    b: int
}

fun double(x: int): int {
    var d: int = x * 2;
    return d;
}

fun pair_sum(p: Pair): int {
    var s: int = p.a + p.b;
    return s;
}
"
        .to_string(),
    };
    let ops = TolkTracer::trace_program(
        "imports_test.tolk",
        "import \"imports_helpers\";

fun compute(): int {
    var d: int = double(5);
    var p: Pair = Pair { a: 3, b: 4 };
    var s: int = pair_sum(p);
    var total: int = d + s;
    return total;
}

fun main(): int {
    return compute();
}
",
        &vec![helpers],
        DEPTH,
    )
    .unwrap();
    assert!(events(&ops).is_empty());
    assert_eq!(functions(&ops), vec!["main", "compute", "double", "pair_sum"]);
    assert_eq!(calls(&ops), vec!["compute", "double", "pair_sum"]);
    assert_eq!(
        vars(&ops),
        vec!["x=5", "d=10", "d=10", "p={3, 4}", "p={3, 4}", "s=7", "s=7", "total=17"]
    );
    let at = |file: &str| {
        ops.iter()
            .filter(|op| matches!(op, TraceOp::Step { path, .. } if path == file))
            .count()
    };
    assert_eq!(at("imports_helpers.tolk"), 4);
    assert_eq!(1 + at("imports_test.tolk"), 7);
    assert_eq!(steps(&ops), 11);
    assert_eq!(
        exits(&ops),
        pairs(&[("double", "10"), ("pair_sum", "7"), ("compute", "17")])
    );
}

#[test]
fn test_match_test_via_ct_print_full() {
    let ops = trace(
        "type Status = Pending | Active | Failed;

fun classify(status: Status): int {
    var result: int = 0;
    match (status) {
        Pending => { result = 0; }
        Active(n) => { result = n; }
        Failed(reason) => { result = -reason; }
    }
    return result;
}

fun dispatch_pending(): int {
    var s: Status = Pending { placeholder: 99 };
    return classify(s);
}

fun dispatch_active(): int {
    var s: Status = Active { n: 7 };
    return classify(s);
}

fun dispatch_failed(): int {
    var s: Status = Failed { reason: 13 };
    return classify(s);
}

fun compute(): int {
    var p: int = dispatch_pending();
    var a: int = dispatch_active();
    var f: int = dispatch_failed();
    var total: int = p + a + f;
    return total;
}

fun main(): int {
    return compute();
}
",
    );
    assert!(events(&ops).is_empty());
    assert_eq!(
        functions(&ops),
        vec![
            "main",
            "compute",
            "dispatch_pending",
            "classify",
            "dispatch_active",
            "dispatch_failed",
        ]
    );
    assert_eq!(
        calls(&ops),
        vec![
            "compute",
            "dispatch_pending",
            "classify",
            "dispatch_active",
            "classify",
            "dispatch_failed",
            "classify",
        ]
    );
    assert_eq!(
        vars(&ops),
        vec![
            "s=Pending{99}",
            "status=Pending{99}",
            "result=0",
            "result=0",
            "p=0",
            "s=Active{7}",
            "status=Active{7}",
            "result=0",
            "result=7",
            "a=7",
            "s=Failed{13}",
            "status=Failed{13}",
            "result=0",
            "result=-13",
            "f=-13",
            "total=-6",
        ]
    );
    assert_eq!(
        exits(&ops),
        pairs(&[
            ("classify", "0"),
            ("dispatch_pending", "0"),
            ("classify", "7"),
            ("dispatch_active", "7"),
            ("classify", "-13"),
            ("dispatch_failed", "-13"),
            ("compute", "-6"),
        ])
    );
}

#[test]
fn test_type_aliases_casting_test_via_ct_print_full() {
    let ops = trace(
        "type Coins = int;
type Workchain = int;

fun pay(msg_value: Coins): Coins {
    var balance: Coins = msg_value as Coins;
    var fee: Coins = 5 as Coins;
    var net: Coins = balance - fee;
    return net;
}

fun route(): int {
    var wc: Workchain = 0 as Workchain;
    var paid: Coins = pay(100);
    var combined: int = (paid as int) + (wc as int);
    return combined;
}

fun compute(): int {
    return route();
}

fun main(): int {
    return compute();
}
",
    );
    assert_eq!(functions(&ops), vec!["main", "compute", "route", "pay"]);
    assert_eq!(steps(&ops), 11);
    assert_eq!(total(&ops), 17);
    assert!(events(&ops).is_empty());
    assert_eq!(calls(&ops), vec!["compute", "route", "pay"]);
    assert_eq!(
        vars(&ops),
        vec!["wc=0", "msg_value=100", "balance=100", "fee=5", "net=95", "paid=95", "combined=95"]
    );
    assert_eq!(
        exits(&ops),
        pairs(&[("pay", "95"), ("route", "95"), ("compute", "95")])
    );
}

#[test]
fn test_string_literals_test_via_ct_print_full() {
    let ops = trace(
        ";; Text and hexadecimal literals.

fun build_text_slice(): slice {
    var s = \"abc\";
    return s;
}

fun build_hex_slice(): slice {
    var s = 0x\"abcd\";
    return s;
}

fun compute(): int {
    var t = build_text_slice();
    var h = build_hex_slice();
    return 0;
}

fun main(): int {
    return compute();
}
",
    );
    assert!(events(&ops).is_empty());
    assert_eq!(
        functions(&ops),
        vec!["main", "compute", "build_text_slice", "build_hex_slice"]
    );
    assert_eq!(calls(&ops), vec!["compute", "build_text_slice", "build_hex_slice"]);
    assert_eq!(
        vars(&ops),
        vec![
            "s=Slice<text> \"abc\"",
            "t=Slice<text> \"abc\"",
            "s=Slice<hex> 0x\"abcd\"",
            "h=Slice<hex> 0x\"abcd\"",
        ]
    );
    assert_eq!(
        exits(&ops),
        pairs(&[
            ("build_text_slice", "Slice<text> \"abc\""),
            ("build_hex_slice", "Slice<hex> 0x\"abcd\""),
            ("compute", "0"),
        ])
    );
}

#[test]
fn types_come_before_their_use() {
    let ops = trace(FLOW);
    assert!(matches!(&ops[0], TraceOp::Type { kind: TypeKind::Int, name } if name == "int"));
    assert!(matches!(&ops[1], TraceOp::Type { kind: TypeKind::Int, name } if name == "bool"));
    assert!(
        matches!(&ops[2], TraceOp::Type { kind: TypeKind::Sequence, name } if name == "Tuple")
    );
}

/// What each call returns.
fn results(ops: &[TraceOp]) -> Vec<String> {
    exits(ops).into_iter().map(|(_, value)| value).collect()
}

#[test]
fn test_ton_compute_value() {
    assert_eq!(results(&trace(FLOW)), vec!["94"]);
}

#[test]
fn test_control_flow_test_loops_and_branches_executed() {
    assert_eq!(results(&trace(CONTROL_FLOW)), vec!["1", "6", "3", "8", "18"]);
}

#[test]
fn test_error_paths_test_emits_throw_event() {
    assert!(!events(&trace(ERROR_PATHS)).is_empty());
}

#[test]
fn test_tuples_structs_test_value_kinds_present() {
    let ops = trace(TUPLES_STRUCTS);
    let has = |kind: fn(&Record) -> bool| {
        ops.iter().any(|op| matches!(op, TraceOp::Variable { value, .. } if kind(value)))
    };
    assert!(has(|r| matches!(r, Record::Int { .. })));
    assert!(has(|r| matches!(r, Record::Tuple { .. })));
    assert!(has(|r| matches!(r, Record::Struct { .. })));
    assert_eq!(results(&ops), vec!["30", "25", "5", "60"]);
}

#[test]
fn test_cell_ops_test_storage_io_events() {
    let ops = trace(CELL_OPS);
    assert!(events(&ops).len() >= 2);
    let loaded: Vec<String> =
        vars(&ops).into_iter().filter(|v| v.starts_with("loaded=")).collect();
    assert_eq!(loaded, vec!["loaded=42", "loaded=99"]);
}
