use whily::{parse, run, run_with_state, symbolize, Config, VarStore};

#[test]
fn store_set_and_get() {
    let mut s = VarStore::new();
    assert_eq!(s.get("x1"), None);
    s.set("x1", 3);
    s.set("x2", 4);
    s.set("x1", 9);
    assert_eq!(s.get("x1"), Some(9));
    assert_eq!(s.get("x2"), Some(4));
    assert_eq!(s.entries().len(), 2);
}

#[test]
fn run_from_empty_store() {
    let mut c = Config::new();
    let t = symbolize(&mut c, "x1 := 7; x2 := 5; x3 := x1 - x2").unwrap();
    let (_, p) = parse(&c, &t, 0).unwrap();
    let s = run(&c, &p).unwrap();
    assert_eq!(s.get("x3"), Some(2));
}

#[test]
fn run_with_existing_state() {
    let mut c = Config::new();
    let t = symbolize(&mut c, "x3 := x1 + x2").unwrap();
    let (_, p) = parse(&c, &t, 0).unwrap();
    let mut s = VarStore::new();
    s.set("x1", 40);
    s.set("x2", 2);
    run_with_state(&c, &p, &mut s).unwrap();
    assert_eq!(s.get("x3"), Some(42));
}

fn program(src: &str, c: &mut Config) -> whily::Statement {
    let t = symbolize(c, src).unwrap();
    parse(c, &t, 0).unwrap().1
}

#[test]
fn ceiling_leaves_the_store_after_all_runs() {
    let mut c = Config::new();
    let p = program("while x1 != 0 do x2 := x2 + x1 od", &mut c);
    let mut s = VarStore::new();
    s.set("x1", 1);
    s.set("x2", 0);
    let r = run_with_state(&c, &p, &mut s);
    assert!(matches!(r, Err(whily::RuntimeError::MaxLoopsReached)));
    assert_eq!(s.get("x1"), Some(1));
    assert_eq!(s.get("x2"), Some(131072));
}

#[test]
fn countdown_one_past_the_ceiling() {
    let mut c = Config::new();
    let p = program("while x1 != 0 do x1 := x1 - x3 od", &mut c);
    let mut s = VarStore::new();
    s.set("x1", 131073);
    s.set("x3", 1);
    let r = run_with_state(&c, &p, &mut s);
    assert!(matches!(r, Err(whily::RuntimeError::MaxLoopsReached)));
    assert_eq!(s.get("x1"), Some(1));
    assert_eq!(s.get("x3"), Some(1));
    assert_eq!(s.entries().len(), 2);
}

#[test]
fn failed_assignment_leaves_the_store() {
    let mut c = Config::new();
    c.allow_constants_everywhere = true;
    let p = program("x1 := x9", &mut c);
    let mut s = VarStore::new();
    s.set("x1", 4);
    let r = run_with_state(&c, &p, &mut s);
    assert!(matches!(r, Err(whily::RuntimeError::UnassignedVariable(ref v)) if v == "x9"));
    assert_eq!(s.get("x1"), Some(4));
    assert_eq!(s.entries().len(), 1);
}

#[test]
fn failed_operation_leaves_the_store() {
    let mut c = Config::new();
    let p = program("x2 := x1 - x3", &mut c);
    let mut s = VarStore::new();
    s.set("x1", 1);
    s.set("x2", 7);
    s.set("x3", 2);
    let r = run_with_state(&c, &p, &mut s);
    assert!(matches!(r, Err(whily::RuntimeError::VariableUnderflow(ref v)) if v == "x2"));
    assert_eq!(s.get("x2"), Some(7));
}

#[test]
fn failure_after_a_first_statement_keeps_its_effect() {
    let mut c = Config::new();
    let p = program("x1 := 5; x2 := x1 - x3", &mut c);
    let mut s = VarStore::new();
    let r = run_with_state(&c, &p, &mut s);
    assert!(matches!(r, Err(whily::RuntimeError::UnassignedVariable(ref v)) if v == "x3"));
    assert_eq!(s.get("x1"), Some(5));
    assert_eq!(s.get("x2"), None);
}
