use whily::{parse, symbolize, Config, Operator, Statement, Value};

fn tokens(src: &str, c: &mut Config) -> Vec<whily::Symbol> {
    symbolize(c, src).unwrap()
}

#[test]
fn sequence_folds_to_the_left() {
    let mut c = Config::new();
    let t = tokens("x1 := 1; x2 := 2; x3 := 3", &mut c);
    let (end, s) = parse(&c, &t, 0).unwrap();
    assert_eq!(end, t.len() - 1);
    match s {
        Statement::S(l, r) => {
            assert!(matches!(*l, Statement::S(_, _)));
            assert!(matches!(*r, Statement::DeclareConst(ref n, Value::Constant(3)) if n == "x3"));
        }
        _ => panic!("expected a sequence"),
    }
}

#[test]
fn operation_statement() {
    let mut c = Config::new();
    let t = tokens("x1 := x2 - x3", &mut c);
    let (_, s) = parse(&c, &t, 0).unwrap();
    match s {
        Statement::DeclareOperation(n, Value::Variable(a), Operator::Subtract, Value::Variable(b)) => {
            assert_eq!((n.as_str(), a.as_str(), b.as_str()), ("x1", "x2", "x3"));
        }
        _ => panic!("expected an operation"),
    }
}

#[test]
fn loop_statement_with_plain_assignment_before_od() {
    let mut c = Config::new();
    let t = tokens("x1 := 1; while x1 != 0 do x1 := 0 od", &mut c);
    let (end, s) = parse(&c, &t, 0).unwrap();
    assert_eq!(end, t.len() - 1);
    match s {
        Statement::S(_, r) => assert!(matches!(*r, Statement::While(ref cv, _) if cv == "x1")),
        _ => panic!("expected a sequence"),
    }
}

#[test]
fn parse_stops_before_od() {
    let mut c = Config::new();
    let t = tokens("x1 := 0 od", &mut c);
    let (end, _) = parse(&c, &t, 0).unwrap();
    assert_eq!(end, 2);
}

#[test]
fn empty_program_is_an_error() {
    let c = Config::new();
    assert!(parse(&c, &Vec::new(), 0).is_err());
}

#[test]
fn dangling_semicolon_is_an_error() {
    let mut c = Config::new();
    let t = tokens("x1 := 1;", &mut c);
    assert!(parse(&c, &t, 0).is_err());
    let t = tokens("; x1 := 1", &mut c);
    assert!(parse(&c, &t, 0).is_err());
}

#[test]
fn two_statements_without_separator() {
    let mut c = Config::new();
    let t = tokens("x1 := 1 x2 := 2", &mut c);
    assert!(parse(&c, &t, 0).is_err());
}

#[test]
fn missing_od() {
    let mut c = Config::new();
    let t = tokens("x1 := 1; while x1 != 0 do x1 := 0", &mut c);
    assert!(parse(&c, &t, 0).is_err());
}

#[test]
fn loop_test_must_be_against_zero() {
    let mut c = Config::new();
    let t = tokens("while x1 != 1 do x1 := 0 od", &mut c);
    assert!(parse(&c, &t, 0).is_err());
}

#[test]
fn multiplication_needs_extra_operators() {
    let mut c = Config::new();
    let t = tokens("x1 := x2 * x3", &mut c);
    assert!(parse(&c, &t, 0).is_err());
    c.extra_operators = true;
    assert!(parse(&c, &t, 0).is_ok());
}

#[test]
fn constants_in_operations_need_the_flag() {
    let mut c = Config::new();
    let t = tokens("x2 := x2 + 1", &mut c);
    assert!(parse(&c, &t, 0).is_err());
    c.allow_constants_everywhere = true;
    assert!(parse(&c, &t, 0).is_ok());
}

#[test]
fn copying_a_variable_needs_the_flag() {
    let mut c = Config::new();
    let t = tokens("x1 := x2", &mut c);
    assert!(parse(&c, &t, 0).is_err());
    c.allow_constants_everywhere = true;
    assert!(parse(&c, &t, 0).is_ok());
}

#[test]
fn constant_assignment_is_always_legal() {
    let mut c = Config::new();
    let t = tokens("x1 := 5", &mut c);
    assert!(parse(&c, &t, 0).is_ok());
}

#[test]
fn value_text() {
    assert_eq!(Value::Constant(42).to_text(), "42");
    assert_eq!(Value::Variable("x7".to_string()).to_text(), "x7");
}

#[test]
fn error_message_names_statement_and_token() {
    let mut c = Config::new();
    let t = tokens("x1 := while", &mut c);
    let m = parse(&c, &t, 0).unwrap_err();
    assert_eq!(m, "In 'x1 := ..': expected a variable or constant after ':=', found 'while'.");
}

#[test]
fn error_message_at_the_end() {
    let mut c = Config::new();
    let t = tokens("x1 := 1; while x1 != 0 do x1 := 0", &mut c);
    let m = parse(&c, &t, 0).unwrap_err();
    assert!(m.ends_with("found the end of the program."));
    assert!(m.contains("while"));
}
