use whily::{interpret, Config, InterpretError, LexErrorKind, RuntimeError, MAX_ITERATIONS};

fn consts() -> Config {
    let mut c = Config::new();
    c.allow_constants_everywhere = true;
    c
}

#[test]
fn assignment_and_addition() {
    let s = interpret(consts(), "x1 := 5; x2 := x1 + 3").unwrap();
    assert_eq!(s.get("x1"), Some(5));
    assert_eq!(s.get("x2"), Some(8));
    assert_eq!(s.entries().len(), 2);
}

#[test]
fn addition_with_constant_needs_the_flag() {
    let r = interpret(Config::new(), "x1 := 5; x2 := x1 + 3");
    assert!(matches!(r, Err(InterpretError::Parse(_))));
}

#[test]
fn underflow_fails_without_flag() {
    let r = interpret(consts(), "x1 := 5; x1 := x1 - 10");
    assert!(matches!(r, Err(InterpretError::Runtime(RuntimeError::VariableUnderflow(ref v))) if v == "x1"));
}

#[test]
fn underflow_clamps_with_flag() {
    let mut c = consts();
    c.allow_underflow = true;
    let s = interpret(c, "x1 := 5; x1 := x1 - 10").unwrap();
    assert_eq!(s.get("x1"), Some(0));
    assert_eq!(s.entries().len(), 1);
}

#[test]
fn loop_over_unbound_variable() {
    let r = interpret(consts(), "while x1 != 0 do x1 := x1 - 1 od");
    assert!(matches!(r, Err(InterpretError::Runtime(RuntimeError::UnassignedVariable(ref v))) if v == "x1"));
}

#[test]
fn unbound_operand_in_loop_body() {
    let src = "x1 := 3; while x1 != 0 do x2 := x2 + 1; x1 := x1 - 1 od";
    let r = interpret(consts(), src);
    assert!(matches!(r, Err(InterpretError::Runtime(RuntimeError::UnassignedVariable(ref v))) if v == "x2"));
    let r = interpret(Config::new(), src);
    assert!(matches!(r, Err(InterpretError::Parse(_))));
}

#[test]
fn counting_loop() {
    let s = interpret(consts(), "x1 := 3; x2 := 0; while x1 != 0 do x2 := x2 + 2; x1 := x1 - 1 od").unwrap();
    assert_eq!(s.get("x1"), Some(0));
    assert_eq!(s.get("x2"), Some(6));
}

#[test]
fn loop_that_never_ends_hits_the_ceiling() {
    let r = interpret(Config::new(), "x1 := 1; x2 := 0; while x1 != 0 do x2 := x2 + x1 od");
    assert!(matches!(r, Err(InterpretError::Runtime(RuntimeError::MaxLoopsReached))));
}

#[test]
fn loop_of_exactly_the_ceiling_succeeds() {
    let src = format!("x1 := {}; x3 := 1; while x1 != 0 do x1 := x1 - x3 od", MAX_ITERATIONS);
    let s = interpret(Config::new(), &src).unwrap();
    assert_eq!(s.get("x1"), Some(0));
}

#[test]
fn loop_of_one_more_than_the_ceiling_fails() {
    let src = format!("x1 := {}; x3 := 1; while x1 != 0 do x1 := x1 - x3 od", MAX_ITERATIONS + 1);
    let r = interpret(Config::new(), &src);
    assert!(matches!(r, Err(InterpretError::Runtime(RuntimeError::MaxLoopsReached))));
}

#[test]
fn ceiling_value() {
    assert_eq!(MAX_ITERATIONS, 131072);
}

#[test]
fn overflow_on_addition() {
    let r = interpret(Config::new(), "x1 := 18446744073709551615; x2 := x1 + x1");
    assert!(matches!(r, Err(InterpretError::Runtime(RuntimeError::VariableOverflow(ref v))) if v == "x2"));
}

#[test]
fn overflow_on_multiplication() {
    let mut c = Config::new();
    c.extra_operators = true;
    let r = interpret(c, "x1 := 4294967296; x2 := x1 * x1");
    assert!(matches!(r, Err(InterpretError::Runtime(RuntimeError::VariableOverflow(ref v))) if v == "x2"));
    let s = interpret(c, "x1 := 4294967295; x2 := x1 * x1").unwrap();
    assert_eq!(s.get("x2"), Some(18446744065119617025));
}

#[test]
fn named_variables_need_the_flag() {
    let r = interpret(consts(), "count := 5; total := count + 1");
    assert!(matches!(r, Err(InterpretError::Lex(ref e)) if e.kind == LexErrorKind::UnknownSymbol));
    let s = interpret(consts(), "#allow_named_vars\ncount := 5; total := count + 1").unwrap();
    assert_eq!(s.get("total"), Some(6));
    let mut c = consts();
    c.allow_named_vars = true;
    let s = interpret(c, "count := 5; total := count + 1").unwrap();
    assert_eq!(s.get("count"), Some(5));
}

#[test]
fn pragma_applies_to_evaluation() {
    let s = interpret(consts(), "#allow_underflow x1 := 1; x1 := x1 - 2").unwrap();
    assert_eq!(s.get("x1"), Some(0));
}

#[test]
fn stray_od_is_a_parse_error() {
    let r = interpret(Config::new(), "x1 := 1 od");
    assert!(matches!(r, Err(InterpretError::Parse(_))));
}

#[test]
fn same_program_twice_same_store() {
    let src = "x1 := 4; x2 := 0; while x1 != 0 do x2 := x2 + x1; x1 := x1 - x3 od";
    let a = interpret(Config::new(), &format!("x3 := 1; {}", src)).unwrap();
    let b = interpret(Config::new(), &format!("x3 := 1; {}", src)).unwrap();
    let mut ea = a.entries();
    let mut eb = b.entries();
    ea.sort();
    eb.sort();
    assert_eq!(ea, eb);
    assert_eq!(a.get("x2"), Some(10));
}

#[test]
fn runtime_error_text() {
    assert_eq!(RuntimeError::UnassignedVariable("x3".to_string()).describe(), "UnassignedVariable x3");
    assert_eq!(RuntimeError::VariableOverflow("x1".to_string()).describe(), "VariableOverflow x1");
    assert_eq!(
        RuntimeError::VariableUnderflow("x1".to_string()).describe(),
        "VariableUnderflow x1 (you can try running it with 'allow_underflow' enabled)"
    );
    assert_eq!(RuntimeError::MaxLoopsReached.describe(), "MaxLoopsReached");
}
