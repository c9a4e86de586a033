use codetracer_ton_recorder::scope::Scope;
use codetracer_ton_recorder::tvm::{
    run_tvm_program, tvm_eval_expr, tvm_eval_expr_checked, TvmError, TvmProgram,
};

#[test]
fn test_tvm_push_int() {
    // Small value: push 5 onto stack.
    let mut prog = TvmProgram::new();
    prog.push_int(5);
    let cell = prog.build_cell().unwrap();
    let result = run_tvm_program(cell).unwrap();
    assert_eq!(result, 5);
}

#[test]
fn test_tvm_push_int_negative() {
    let mut prog = TvmProgram::new();
    prog.push_int(-3);
    let cell = prog.build_cell().unwrap();
    let result = run_tvm_program(cell).unwrap();
    assert_eq!(result, -3);
}

#[test]
fn test_tvm_push_int_medium() {
    let mut prog = TvmProgram::new();
    prog.push_int(100);
    let cell = prog.build_cell().unwrap();
    let result = run_tvm_program(cell).unwrap();
    assert_eq!(result, 100);
}

#[test]
fn test_tvm_stack_operations() {
    // Push 10 and 32, then ADD. Should get 42.
    let mut prog = TvmProgram::new();
    prog.push_int(10);
    prog.push_int(32);
    prog.add();
    let cell = prog.build_cell().unwrap();
    let result = run_tvm_program(cell).unwrap();
    assert_eq!(result, 42, "TVM ADD: 10 + 32 should be 42");
}

#[test]
fn test_tvm_multiplication() {
    // Push 42 and 2, then MUL. Should get 84.
    let mut prog = TvmProgram::new();
    prog.push_int(42);
    prog.push_int(2);
    prog.mul();
    let cell = prog.build_cell().unwrap();
    let result = run_tvm_program(cell).unwrap();
    assert_eq!(result, 84, "TVM MUL: 42 * 2 should be 84");
}

#[test]
fn test_tvm_full_computation() {
    // Compute the full chain: a=10, b=32, sum=a+b=42, doubled=sum*2=84,
    // final=doubled+a=94.
    // TVM program: PUSH 10, PUSH 32, ADD, PUSH 2, MUL, PUSH 10, ADD
    let known = Scope::new();

    // Step 1: a + b = 10 + 32 = 42
    let sum = tvm_eval_expr("10 + 32", &known).unwrap();
    assert_eq!(sum, 42);

    // Step 2: sum * 2 = 42 * 2 = 84
    let mut known2 = Scope::new();
    known2.insert("sum_val".to_string(), sum);
    let doubled = tvm_eval_expr("sum_val * 2", &known2).unwrap();
    assert_eq!(doubled, 84);

    // Step 3: doubled + a = 84 + 10 = 94
    let mut known3 = Scope::new();
    known3.insert("doubled".to_string(), doubled);
    known3.insert("a".to_string(), 10);
    let final_result = tvm_eval_expr("doubled + a", &known3).unwrap();
    assert_eq!(final_result, 94);
}

#[test]
fn test_tvm_eval_literal() {
    let known = Scope::new();
    assert_eq!(tvm_eval_expr("10", &known), Some(10));
    assert_eq!(tvm_eval_expr("0", &known), Some(0));
    assert_eq!(tvm_eval_expr("-5", &known), Some(-5));
}

#[test]
fn test_tvm_eval_variable() {
    let mut known = Scope::new();
    known.insert("x".to_string(), 42);
    assert_eq!(tvm_eval_expr("x", &known), Some(42));
}

#[test]
fn test_tvm_eval_binary_ops() {
    let mut known = Scope::new();
    known.insert("a".to_string(), 10);
    known.insert("b".to_string(), 32);

    assert_eq!(tvm_eval_expr("a + b", &known), Some(42));
    assert_eq!(tvm_eval_expr("a * 2", &known), Some(20));
    assert_eq!(tvm_eval_expr("a % 3", &known), Some(1));
    assert_eq!(tvm_eval_expr("unknown", &known), None);
}

#[test]
fn test_tvm_eval_comparisons() {
    let mut known = Scope::new();
    known.insert("a".to_string(), 10);
    known.insert("b".to_string(), 32);

    assert_eq!(tvm_eval_expr("a == 10", &known), Some(1));
    assert_eq!(tvm_eval_expr("a != b", &known), Some(1));
    assert_eq!(tvm_eval_expr("a < b", &known), Some(1));
    assert_eq!(tvm_eval_expr("b > a", &known), Some(1));
    assert_eq!(tvm_eval_expr("a <= 10", &known), Some(1));
    assert_eq!(tvm_eval_expr("a >= 11", &known), Some(0));
}

#[test]
fn test_tvm_eval_booleans() {
    let known = Scope::new();
    assert_eq!(tvm_eval_expr("true", &known), Some(1));
    assert_eq!(tvm_eval_expr("false", &known), Some(0));
}

#[test]
fn test_tvm_eval_chain() {
    let mut known = Scope::new();
    known.insert("a".to_string(), 10);
    known.insert("b".to_string(), 32);
    known.insert("sum_val".to_string(), 42);
    known.insert("doubled".to_string(), 84);

    assert_eq!(tvm_eval_expr("a + b", &known), Some(42));
    assert_eq!(tvm_eval_expr("sum_val * 2", &known), Some(84));
    assert_eq!(tvm_eval_expr("doubled + a", &known), Some(94));
}

#[test]
fn comparisons_are_one_or_zero_and_opposites_add_up_to_one() {
    let mut known: Scope<i64> = Scope::new();
    known.insert("x".to_string(), -7);
    known.insert("big".to_string(), i64::MAX);
    let operands: [(&str, i64); 8] = [
        ("0", 0),
        ("-5", -5),
        ("+5", 5),
        ("true", 1),
        ("-9223372036854775808", i64::MIN),
        ("1000000", 1_000_000),
        ("x", -7),
        ("big", i64::MAX),
    ];
    for (l, a) in operands {
        for (r, b) in operands {
            let pairs: [(&str, bool, &str); 3] =
                [("==", a == b, "!="), ("<", a < b, ">="), (">", a > b, "<=")];
            for (op, holds, opposite) in pairs {
                let one = tvm_eval_expr(&format!("{l} {op} {r}"), &known).unwrap();
                let other = tvm_eval_expr(&format!("{l} {opposite} {r}"), &known).unwrap();
                assert_eq!(one, i64::from(holds), "{l} {op} {r}");
                assert_eq!(one + other, 1, "{l} {opposite} {r}");
            }
        }
    }
}

#[test]
fn an_expression_has_its_value_or_an_error() {
    let known: Scope<i64> = Scope::new();
    let value = |text: &str| tvm_eval_expr_checked(text, &known);
    assert!(matches!(value("7 * (-6) + 2"), Ok(Some(-40))));
    assert!(matches!(value("9223372036854775807 + 1"), Err(TvmError::NotAnInteger { .. })));
    assert!(matches!(value("1 / 0"), Err(TvmError::Failed { exit_code: 4, .. })));
}
