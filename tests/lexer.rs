use whily::symbolizer::variable_number;
use whily::{symbolize, Config, LexErrorKind, Operator, Symbol, SymbolError};

fn texts(symbols: &[Symbol]) -> Vec<String> {
    symbols.iter().map(|s| s.to_text()).collect()
}

#[test]
fn tokens_of_assignment() {
    let mut c = Config::new();
    let v = symbolize(&mut c, "x1 := x2 + 30;").unwrap();
    assert_eq!(v.len(), 6);
    assert!(matches!(&v[0], Symbol::Variable(n) if n == "x1"));
    assert!(matches!(v[1], Symbol::Declare));
    assert!(matches!(&v[2], Symbol::Variable(n) if n == "x2"));
    assert!(matches!(v[3], Symbol::Operator(Operator::Add)));
    assert!(matches!(v[4], Symbol::Constant(30)));
    assert!(matches!(v[5], Symbol::EOS));
}

#[test]
fn operator_and_keyword_texts_round_trip() {
    let mut c = Config::new();
    let src = "x1 := x2 * x3; while x1 != 0 do x1 := x1 - x2 od";
    let v = symbolize(&mut c, src).unwrap();
    let t = texts(&v);
    assert_eq!(
        t,
        vec![
            "x1", ":=", "x2", "*", "x3", ";", "while", "x1", "!=", "0", "do", "x1", ":=", "x1",
            "-", "x2", "od"
        ]
    );
    let joined = t.join(" ");
    let mut c2 = Config::new();
    let again = symbolize(&mut c2, &joined).unwrap();
    assert_eq!(texts(&again), t);
}

#[test]
fn plus_and_semicolon_text() {
    assert_eq!(Symbol::Operator(Operator::Add).to_text(), "+");
    assert_eq!(Symbol::EOS.to_text(), ";");
    assert_eq!(Symbol::Constant(120).to_text(), "120");
    assert_eq!(Symbol::Constant(0).to_text(), "0");
}

#[test]
fn comments_and_whitespace_are_skipped() {
    let mut c = Config::new();
    let v = symbolize(&mut c, "[ a comment ; with [ inside ]\n\tx1 := 5 [tail]").unwrap();
    assert_eq!(texts(&v), vec!["x1", ":=", "5"]);
}

#[test]
fn unterminated_comment_runs_to_the_end() {
    let mut c = Config::new();
    let v = symbolize(&mut c, "x1 := 5 [ never closed x2 := 3").unwrap();
    assert_eq!(texts(&v), vec!["x1", ":=", "5"]);
}

#[test]
fn named_variable_without_flag_is_unknown_symbol() {
    let mut c = Config::new();
    let e = symbolize(&mut c, "count := 5").unwrap_err();
    assert_eq!(e.kind, LexErrorKind::UnknownSymbol);
    assert_eq!((e.line, e.pos), (1, 1));
}

#[test]
fn named_variable_with_flag() {
    let mut c = Config::new();
    c.allow_named_vars = true;
    let v = symbolize(&mut c, "count := x1").unwrap();
    assert!(matches!(&v[0], Symbol::Variable(n) if n == "count"));
}

#[test]
fn pragma_enables_flag_for_the_rest() {
    let mut c = Config::new();
    let v = symbolize(&mut c, "#allow_named_vars\ncount := 5").unwrap();
    assert!(c.allow_named_vars);
    assert!(matches!(&v[0], Symbol::Variable(n) if n == "count"));
}

#[test]
fn pragma_allow_underflow_sets_that_flag() {
    let mut c = Config::new();
    symbolize(&mut c, "#allow_underflow x1 := 1").unwrap();
    assert!(c.allow_underflow);
    assert!(!c.allow_named_vars);
}

#[test]
fn unknown_pragma() {
    let mut c = Config::new();
    let e = symbolize(&mut c, "x1 := 1;\n  #no_such_flag").unwrap_err();
    assert_eq!(e.kind, LexErrorKind::UnknownPragma);
    assert_eq!((e.line, e.pos), (2, 3));
}

#[test]
fn bare_hash_is_unknown_symbol() {
    let mut c = Config::new();
    let e = symbolize(&mut c, "# x1 := 1").unwrap_err();
    assert_eq!(e.kind, LexErrorKind::UnknownSymbol);
}

#[test]
fn unknown_character_position() {
    let mut c = Config::new();
    let e = symbolize(&mut c, "x1 := 1;\nx2 := ?").unwrap_err();
    assert_eq!(e.kind, LexErrorKind::UnknownSymbol);
    assert_eq!((e.line, e.pos), (2, 7));
}

#[test]
fn largest_constant_and_one_more() {
    let mut c = Config::new();
    let v = symbolize(&mut c, "18446744073709551615").unwrap();
    assert!(matches!(v[0], Symbol::Constant(u64::MAX)));
    let e = symbolize(&mut c, "18446744073709551616").unwrap_err();
    assert_eq!(e.kind, LexErrorKind::UnknownSymbol);
}

#[test]
fn keyword_prefix_is_an_identifier_with_named_vars() {
    let mut c = Config::new();
    c.allow_named_vars = true;
    let v = symbolize(&mut c, "doer od").unwrap();
    assert!(matches!(&v[0], Symbol::Variable(n) if n == "doer"));
    assert!(matches!(&v[1], Symbol::Keyword(k) if k == "od"));
}

#[test]
fn keywords_without_named_vars() {
    let mut c = Config::new();
    let v = symbolize(&mut c, "while do od").unwrap();
    assert_eq!(texts(&v), vec!["while", "do", "od"]);
    assert!(v.iter().all(|s| matches!(s, Symbol::Keyword(_))));
}

#[test]
fn x_without_digits_is_unknown() {
    let mut c = Config::new();
    let e = symbolize(&mut c, "x := 1").unwrap_err();
    assert_eq!(e.kind, LexErrorKind::UnknownSymbol);
}

#[test]
fn symbol_error_text() {
    let e = SymbolError::new(3, 14, "bad");
    assert_eq!(e.kind, LexErrorKind::UnknownSymbol);
    assert_eq!(e.describe(), "Syntax error on line 3:14: bad");
    let p = SymbolError::pragma(1, 2, "flag");
    assert_eq!(p.kind, LexErrorKind::UnknownPragma);
}

#[test]
fn enable_each_flag() {
    let mut c = Config::new();
    assert!(c.enable("extra_operators").is_ok());
    assert!(c.extra_operators);
    assert!(c.enable("allow_constants_everywhere").is_ok());
    assert!(c.allow_constants_everywhere);
    assert!(c.enable("allow_underflow").is_ok());
    assert!(c.allow_underflow);
    assert!(!c.allow_named_vars);
    assert!(c.enable("allow_named_vars").is_ok());
    assert!(c.allow_named_vars);
    let before = c;
    assert!(c.enable("allow-named-vars").is_err());
    assert_eq!(c, before);
}

#[test]
fn canonical_variable_numbers() {
    assert_eq!(variable_number("x12"), Some(12));
    assert_eq!(variable_number("x2"), Some(2));
    assert_eq!(variable_number("x"), None);
    assert_eq!(variable_number("x1a"), None);
    assert_eq!(variable_number("count"), None);
    assert_eq!(variable_number("x99999999999999999999"), None);
}

#[test]
fn unknown_pragma_message_names_the_flag() {
    let mut c = Config::new();
    let e = symbolize(&mut c, "#no_such_flag").unwrap_err();
    assert_eq!(
        e.msg,
        "Invalid configuration flag: #no_such_flag. Run whily with --help to see the different possible options."
    );
}

#[test]
fn text_to_tokens_to_text() {
    let src = ":= != + - * ; while do od";
    let mut c = Config::new();
    let v = symbolize(&mut c, src).unwrap();
    assert_eq!(texts(&v).join(" "), src);
    let mut n = Config::new();
    n.allow_named_vars = true;
    let v = symbolize(&mut n, src).unwrap();
    assert_eq!(texts(&v).join(" "), src);
}

#[test]
fn blanks_and_comments_between_tokens_change_nothing() {
    let mut a = Config::new();
    let mut b = Config::new();
    let plain = symbolize(&mut a, "x1 := x2 + x3").unwrap();
    let spaced = symbolize(&mut b, "x1\t:=[note]x2 [ ; ]+\n x3 ").unwrap();
    assert_eq!(texts(&plain), texts(&spaced));
}
