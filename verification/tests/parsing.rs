use codetracer_ton_recorder::ast::Statement;
use codetracer_ton_recorder::functions::{parse_functions, parse_param_list};
use codetracer_ton_recorder::scope::Scope;
use codetracer_ton_recorder::statement::parse_statement;
use codetracer_ton_recorder::syntax::parse_function_call;
use codetracer_ton_recorder::tvm::tvm_eval_expr;

#[test]
fn test_parse_functions() {
    let source = r#"fun compute(): int {
    var a: int = 10;
    return a;
}

fun main(): int {
    return compute();
}"#;
    let functions = parse_functions(source, "test.tolk");
    assert_eq!(functions.len(), 2);
    assert_eq!(functions[0].name, "compute");
    assert_eq!(functions[0].return_type, Some("int".to_string()));
    assert_eq!(functions[1].name, "main");
}

#[test]
fn test_parse_statement_var() {
    let stmt = parse_statement("var a: int = 10;", 3);
    assert!(stmt.is_some());
    match stmt.unwrap() {
        Statement::VarBinding {
            name,
            ty_name,
            expr,
            line,
        } => {
            assert_eq!(name, "a");
            assert_eq!(ty_name, Some("int".to_string()));
            assert_eq!(expr, "10");
            assert_eq!(line, 3);
        }
        _ => panic!("expected VarBinding"),
    }
}

#[test]
fn test_parse_statement_val() {
    let stmt = parse_statement("val x: bool = true;", 5);
    assert!(stmt.is_some());
    match stmt.unwrap() {
        Statement::VarBinding {
            name,
            ty_name,
            expr,
            line,
        } => {
            assert_eq!(name, "x");
            assert_eq!(ty_name, Some("bool".to_string()));
            assert_eq!(expr, "true");
            assert_eq!(line, 5);
        }
        _ => panic!("expected VarBinding"),
    }
}

#[test]
fn test_parse_statement_return() {
    let stmt = parse_statement("return final_result;", 8);
    assert!(stmt.is_some());
    match stmt.unwrap() {
        Statement::Return { expr, line } => {
            assert_eq!(expr, "final_result");
            assert_eq!(line, 8);
        }
        _ => panic!("expected Return"),
    }
}

#[test]
fn test_tvm_eval_simple_expr() {
    let mut known = Scope::new();
    known.insert("a".to_string(), 10);
    known.insert("b".to_string(), 32);

    assert_eq!(tvm_eval_expr("10", &known), Some(10));
    assert_eq!(tvm_eval_expr("a", &known), Some(10));
    assert_eq!(tvm_eval_expr("a + b", &known), Some(42));
    assert_eq!(tvm_eval_expr("a * 2", &known), Some(20));
    assert_eq!(tvm_eval_expr("a % 3", &known), Some(1));
    assert_eq!(tvm_eval_expr("unknown", &known), None);
}

#[test]
fn test_eval_chain() {
    let mut known = Scope::new();
    known.insert("a".to_string(), 10);
    known.insert("b".to_string(), 32);
    known.insert("sum_val".to_string(), 42);
    known.insert("doubled".to_string(), 84);

    assert_eq!(tvm_eval_expr("a + b", &known), Some(42));
    assert_eq!(tvm_eval_expr("sum_val * 2", &known), Some(84));
    assert_eq!(tvm_eval_expr("doubled + a", &known), Some(94));
}

#[test]
fn test_parse_function_call() {
    assert_eq!(
        parse_function_call("compute()"),
        Some("compute".to_string())
    );
    assert_eq!(parse_function_call("not_a_call"), None);
    assert_eq!(parse_function_call(""), None);
}

#[test]
fn test_full_flow_test_evaluation() {
    let source = r#"fun compute(): int {
    var a: int = 10;
    var b: int = 32;
    var sum_val: int = a + b;
    var doubled: int = sum_val * 2;
    var final_result: int = doubled + a;
    return final_result;
}

fun main(): int {
    return compute();
}"#;
    let functions = parse_functions(source, "test.tolk");
    assert_eq!(functions.len(), 2);

    // Simulate evaluation of compute() using the real TVM.
    let compute = &functions[0];
    assert_eq!(compute.name, "compute");
    assert_eq!(compute.body.len(), 6); // 5 var bindings + 1 return

    let mut env = Scope::new();
    for stmt in &compute.body {
        if let Statement::VarBinding { name, expr, .. } = stmt {
            if let Some(val) = tvm_eval_expr(expr, &env) {
                env.insert(name.clone(), val);
            }
        }
    }

    assert_eq!(env.get("a"), Some(&10));
    assert_eq!(env.get("b"), Some(&32));
    assert_eq!(env.get("sum_val"), Some(&42));
    assert_eq!(env.get("doubled"), Some(&84));
    assert_eq!(env.get("final_result"), Some(&94));
}

#[test]
fn test_parse_param_list() {
    let params = parse_param_list("a: int, b: int");
    assert_eq!(params.len(), 2);
    assert_eq!(params[0], ("a".to_string(), "int".to_string()));
    assert_eq!(params[1], ("b".to_string(), "int".to_string()));

    let empty = parse_param_list("");
    assert!(empty.is_empty());
}

#[test]
fn test_eval_comparisons() {
    let mut known = Scope::new();
    known.insert("a".to_string(), 10);
    known.insert("b".to_string(), 32);

    assert_eq!(tvm_eval_expr("a == 10", &known), Some(1));
    assert_eq!(tvm_eval_expr("a != b", &known), Some(1));
    assert_eq!(tvm_eval_expr("a < b", &known), Some(1));
    assert_eq!(tvm_eval_expr("b > a", &known), Some(1));
    assert_eq!(tvm_eval_expr("a <= 10", &known), Some(1));
    assert_eq!(tvm_eval_expr("a >= 11", &known), Some(0));
}

#[test]
fn test_eval_booleans() {
    let known = Scope::new();
    assert_eq!(tvm_eval_expr("true", &known), Some(1));
    assert_eq!(tvm_eval_expr("false", &known), Some(0));
}
