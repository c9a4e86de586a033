use codetracer_ton_recorder::scope::Scope;
use codetracer_ton_recorder::stack_tracker::{track_expr, ArithOp, StackTracker};

#[test]
fn test_push_pop() {
    let mut tracker = StackTracker::new();
    tracker.push(10, Some("a".to_string()));
    tracker.push(32, Some("b".to_string()));

    assert_eq!(tracker.depth(), 2);

    let (val, name) = tracker.pop().unwrap();
    assert_eq!(val, 32);
    assert_eq!(name.as_deref(), Some("b"));

    let (val, name) = tracker.pop().unwrap();
    assert_eq!(val, 10);
    assert_eq!(name.as_deref(), Some("a"));

    assert!(tracker.pop().is_none());
}

#[test]
fn test_arithmetic_derive_name() {
    let mut tracker = StackTracker::new();
    tracker.push(10, Some("a".to_string()));
    tracker.push(32, Some("b".to_string()));
    tracker.apply_arithmetic(ArithOp::Add, 42);

    assert_eq!(tracker.depth(), 1);
    let vars = tracker.variables_at_step();
    assert_eq!(vars.len(), 1);
    assert_eq!(vars[0].0, "a + b");
    assert_eq!(vars[0].1, 42);
}

#[test]
fn test_arithmetic_with_literal() {
    let mut tracker = StackTracker::new();
    tracker.push(42, Some("sum_val".to_string()));
    tracker.push(2, None);
    tracker.apply_arithmetic(ArithOp::Mul, 84);

    let vars = tracker.variables_at_step();
    assert_eq!(vars.len(), 1);
    assert_eq!(vars[0].0, "sum_val * 2");
    assert_eq!(vars[0].1, 84);
}

#[test]
fn test_swap() {
    let mut tracker = StackTracker::new();
    tracker.push(10, Some("a".to_string()));
    tracker.push(32, Some("b".to_string()));

    // Swap top two entries (positions 0 and 1).
    tracker.apply_swap(0, 1);

    let (val, name) = tracker.pop().unwrap();
    assert_eq!(val, 10);
    assert_eq!(name.as_deref(), Some("a"));

    let (val, name) = tracker.pop().unwrap();
    assert_eq!(val, 32);
    assert_eq!(name.as_deref(), Some("b"));
}

#[test]
fn test_dup() {
    let mut tracker = StackTracker::new();
    tracker.push(10, Some("a".to_string()));
    tracker.push(32, Some("b".to_string()));

    // Duplicate the second-from-top (position 1 = "a").
    tracker.apply_dup(1);

    assert_eq!(tracker.depth(), 3);
    let (val, name) = tracker.pop().unwrap();
    assert_eq!(val, 10);
    assert_eq!(name.as_deref(), Some("a"));
}

#[test]
fn test_variables_at_step() {
    let mut tracker = StackTracker::new();
    tracker.push(10, Some("a".to_string()));
    tracker.push(32, Some("b".to_string()));
    tracker.push(99, None); // anonymous

    let vars = tracker.variables_at_step();
    assert_eq!(vars.len(), 2);
    assert_eq!(vars[0], ("a".to_string(), 10));
    assert_eq!(vars[1], ("b".to_string(), 32));
}

#[test]
fn test_name_top() {
    let mut tracker = StackTracker::new();
    tracker.push(42, None);
    tracker.name_top("sum_val".to_string());

    let vars = tracker.variables_at_step();
    assert_eq!(vars.len(), 1);
    assert_eq!(vars[0], ("sum_val".to_string(), 42));
}

#[test]
fn test_lookup() {
    let mut tracker = StackTracker::new();
    tracker.push(10, Some("a".to_string()));
    tracker.push(32, Some("b".to_string()));

    assert_eq!(tracker.lookup("a"), Some(10));
    assert_eq!(tracker.lookup("b"), Some(32));
    assert_eq!(tracker.lookup("c"), None);
}

#[test]
fn test_track_expr_literal() {
    let known = Scope::new();
    let tracker = track_expr("10", &known, 10);
    // Literal push: no symbolic name.
    assert_eq!(tracker.depth(), 1);
    let vars = tracker.variables_at_step();
    assert!(vars.is_empty()); // literals have no name
}

#[test]
fn test_track_expr_variable() {
    let mut known = Scope::new();
    known.insert("a".to_string(), 10);
    let tracker = track_expr("a", &known, 10);
    let vars = tracker.variables_at_step();
    assert_eq!(vars.len(), 1);
    assert_eq!(vars[0], ("a".to_string(), 10));
}

#[test]
fn test_track_expr_binary() {
    let mut known = Scope::new();
    known.insert("a".to_string(), 10);
    known.insert("b".to_string(), 32);

    let tracker = track_expr("a + b", &known, 42);
    let vars = tracker.variables_at_step();
    assert_eq!(vars.len(), 1);
    assert_eq!(vars[0].0, "a + b");
    assert_eq!(vars[0].1, 42);
}

#[test]
fn test_track_expr_mul_with_literal() {
    let mut known = Scope::new();
    known.insert("sum_val".to_string(), 42);

    let tracker = track_expr("sum_val * 2", &known, 84);
    let vars = tracker.variables_at_step();
    assert_eq!(vars.len(), 1);
    assert_eq!(vars[0].0, "sum_val * 2");
    assert_eq!(vars[0].1, 84);
}

#[test]
fn test_full_flow_test_symbolic_tracking() {
    // Simulate the flow_test.tolk program:
    //   var a: int = 10;
    //   var b: int = 32;
    //   var sum_val: int = a + b;
    //   var doubled: int = sum_val * 2;
    //   var final_result: int = doubled + a;
    //   return final_result;

    let mut env: Scope<i64> = Scope::new();
    let mut all_vars: Vec<(String, i64)> = Vec::new();

    // var a = 10
    let val = 10i64;
    env.insert("a".to_string(), val);
    all_vars.push(("a".to_string(), val));

    // var b = 32
    let val = 32i64;
    env.insert("b".to_string(), val);
    all_vars.push(("b".to_string(), val));

    // var sum_val = a + b
    let tracker = track_expr("a + b", &env, 42);
    let vars = tracker.variables_at_step();
    assert_eq!(vars.len(), 1);
    assert_eq!(vars[0].0, "a + b");
    assert_eq!(vars[0].1, 42);
    env.insert("sum_val".to_string(), 42);
    all_vars.push(("sum_val".to_string(), 42));

    // var doubled = sum_val * 2
    let tracker = track_expr("sum_val * 2", &env, 84);
    let vars = tracker.variables_at_step();
    assert_eq!(vars.len(), 1);
    assert_eq!(vars[0].0, "sum_val * 2");
    assert_eq!(vars[0].1, 84);
    env.insert("doubled".to_string(), 84);
    all_vars.push(("doubled".to_string(), 84));

    // var final_result = doubled + a
    let tracker = track_expr("doubled + a", &env, 94);
    let vars = tracker.variables_at_step();
    assert_eq!(vars.len(), 1);
    assert_eq!(vars[0].0, "doubled + a");
    assert_eq!(vars[0].1, 94);
    env.insert("final_result".to_string(), 94);
    all_vars.push(("final_result".to_string(), 94));

    // Verify all expected variable values.
    assert_eq!(all_vars.len(), 5);
    assert_eq!(all_vars[0], ("a".to_string(), 10));
    assert_eq!(all_vars[1], ("b".to_string(), 32));
    assert_eq!(all_vars[2], ("sum_val".to_string(), 42));
    assert_eq!(all_vars[3], ("doubled".to_string(), 84));
    assert_eq!(all_vars[4], ("final_result".to_string(), 94));
}
