use vstd::prelude::*;

use crate::config::Config;
use crate::symbolizer::{lexeme_text, lexemes, Lexeme, Operator, Symbol};
use crate::text::{decimal, push_decimal, same_text};

verus! {

/// An operand: a variable read or a constant.
#[derive(Debug)]
pub enum Value {
    Variable(String),
    Constant(u64),
}

/// A statement of a WHILE program.
#[derive(Debug)]
pub enum Statement {
    /// The left statement, then the right one.
    S(Box<Statement>, Box<Statement>),
    /// `target := left op right`
    DeclareOperation(String, Value, Operator, Value),
    /// `target := value`
    DeclareConst(String, Value),
    /// `while cv != 0 do body od`
    While(String, Box<Statement>),
}

/// What an operand stands for.
pub enum Term {
    Var(Seq<char>),
    Const(u64),
}

/// What a statement stands for.
pub enum Prog {
    Then(Box<Prog>, Box<Prog>),
    Operate(Seq<char>, Term, Operator, Term),
    Assign(Seq<char>, Term),
    Loop(Seq<char>, Box<Prog>),
}

impl View for Value {
    type V = Term;

    open spec fn view(&self) -> Term {
        match self {
            Value::Variable(v) => Term::Var(v@),
            Value::Constant(c) => Term::Const(*c),
        }
    }
}

impl View for Statement {
    type V = Prog;

    open spec fn view(&self) -> Prog
        decreases self,
    {
        match self {
            Statement::S(l, r) => Prog::Then(Box::new((**l).view()), Box::new((**r).view())),
            Statement::DeclareOperation(t, a, o, b) => Prog::Operate(t@, a@, *o, b@),
            Statement::DeclareConst(t, a) => Prog::Assign(t@, a@),
            Statement::While(cv, body) => Prog::Loop(cv@, Box::new((**body).view())),
        }
    }
}

/// The text that an operand is written as.
pub open spec fn term_text(a: Term) -> Seq<char> {
    match a {
        Term::Var(v) => v,
        Term::Const(c) => decimal(c as nat),
    }
}

impl Value {
    /// The text that this operand is written as.
    pub fn to_text(&self) -> (r: String)
        ensures
            r@ == term_text(self@),
    {
        match self {
            Value::Variable(v) => v.clone(),
            Value::Constant(c) => {
                let mut out = String::new();
                push_decimal(&mut out, *c);
                out
            },
        }
    }
}

/// The operand written by the token at `i`, if it is one.
pub open spec fn term_at(t: Seq<Lexeme>, i: int) -> Option<Term> {
    if 0 <= i < t.len() {
        match t[i] {
            Lexeme::Variable(v) => Some(Term::Var(v)),
            Lexeme::Constant(c) => Some(Term::Const(c)),
            _ => None,
        }
    } else {
        None
    }
}

pub open spec fn keyword_at(t: Seq<Lexeme>, i: int, w: Seq<char>) -> bool {
    0 <= i < t.len() && t[i] == Lexeme::Keyword(w)
}

/// One statement starting at token `i`: the index of the first token after
/// it, and what it stands for. Where the tokens there form no statement, or
/// one that the configuration forbids, `Err` gives the index of the token
/// at fault (the length of `t` where the program ended too soon).
pub open spec fn parse_stmt(c: Config, t: Seq<Lexeme>, i: int) -> Result<(int, Prog), int>
    decreases t.len() - i, 0int,
{
    if !(0 <= i < t.len()) {
        Err(i)
    } else if let Lexeme::Variable(v) = t[i] {
        if !(i + 1 < t.len() && t[i + 1] == Lexeme::Declare) {
            Err(i + 1)
        } else {
            match term_at(t, i + 2) {
                None => Err(i + 2),
                Some(a) => if i + 3 < t.len() && t[i + 3] is Operator {
                    let op = t[i + 3]->Operator_0;
                    match term_at(t, i + 4) {
                        None => Err(i + 4),
                        Some(b) => if op == Operator::Multiply && !c.extra_operators {
                            Err(i + 3)
                        } else if a is Const && !c.allow_constants_everywhere {
                            Err(i + 2)
                        } else if b is Const && !c.allow_constants_everywhere {
                            Err(i + 4)
                        } else {
                            Ok((i + 5, Prog::Operate(v, a, op, b)))
                        },
                    }
                } else if a is Var && !c.allow_constants_everywhere {
                    Err(i + 2)
                } else {
                    Ok((i + 3, Prog::Assign(v, a)))
                },
            }
        }
    } else if keyword_at(t, i, "while"@) {
        if !(i + 1 < t.len() && t[i + 1] is Variable) {
            Err(i + 1)
        } else if !(i + 2 < t.len() && t[i + 2] == Lexeme::NotEquals) {
            Err(i + 2)
        } else if !(i + 3 < t.len() && t[i + 3] == Lexeme::Constant(0)) {
            Err(i + 3)
        } else if !keyword_at(t, i + 4, "do"@) {
            Err(i + 4)
        } else {
            match parse_prog(c, t, i + 5) {
                Ok((j, body)) => if i + 5 < j && keyword_at(t, j, "od"@) {
                    Ok((j + 1, Prog::Loop(t[i + 1]->Variable_0, Box::new(body))))
                } else {
                    Err(j)
                },
                Err(k) => Err(k),
            }
        }
    } else {
        Err(i)
    }
}

/// A program starting at token `i`: statements separated by `;`, up to an
/// `od` or the end of the tokens, which it leaves unread.
pub open spec fn parse_prog(c: Config, t: Seq<Lexeme>, i: int) -> Result<(int, Prog), int>
    decreases t.len() - i, 1int,
{
    match parse_stmt(c, t, i) {
        Ok((j, s)) => if i < j <= t.len() {
            parse_rest(c, t, j, s)
        } else {
            Err(i)
        },
        Err(k) => Err(k),
    }
}

/// The rest of a program from token `j`, after the statements `left`.
pub open spec fn parse_rest(c: Config, t: Seq<Lexeme>, j: int, left: Prog) -> Result<
    (int, Prog),
    int,
>
    decreases t.len() - j, 2int,
{
    if j >= t.len() || keyword_at(t, j, "od"@) {
        Ok((j, left))
    } else if j >= 0 && t[j] == Lexeme::Eos {
        match parse_stmt(c, t, j + 1) {
            Ok((k, s)) => if j + 1 < k <= t.len() {
                parse_rest(c, t, k, Prog::Then(Box::new(left), Box::new(s)))
            } else {
                Err(j)
            },
            Err(k) => Err(k),
        }
    } else {
        Err(j)
    }
}

/// How a message names the token at index `k`: quoted, or as the end of the
/// program where `k` is past the last token.
pub open spec fn found_text(t: Seq<Lexeme>, k: int) -> Seq<char> {
    if 0 <= k < t.len() {
        "'"@ + lexeme_text(t[k]) + "'"@
    } else {
        "the end of the program"@
    }
}

/// The message says what was expected in its context and ends by naming the
/// token at index `k`.
pub open spec fn complaint_text(
    context: Seq<char>,
    expected: Seq<char>,
    t: Seq<Lexeme>,
    k: int,
) -> Seq<char> {
    context + ": expected "@ + expected + ", found "@ + found_text(t, k) + "."@
}

/// Whether a message ends by naming the token at index `k`.
pub open spec fn names_token(m: Seq<char>, t: Seq<Lexeme>, k: int) -> bool {
    exists|p: Seq<char>| m == p + found_text(t, k) + "."@
}

/// The operand written by the token at `i`, if it is one.
fn operand(symbols: &Vec<Symbol>, i: usize) -> (r: Option<Value>)
    ensures
        match term_at(lexemes(symbols@), i as int) {
            Some(a) => r matches Some(v) && v@ == a,
            None => r is None,
        },
{
    if i >= symbols.len() {
        return None;
    }
    match &symbols[i] {
        Symbol::Variable(v) => Some(Value::Variable(v.clone())),
        Symbol::Constant(c) => Some(Value::Constant(*c)),
        _ => None,
    }
}

/// Whether the token at `i` is the keyword `w`.
fn keyword_is(symbols: &Vec<Symbol>, i: usize, w: &str) -> (r: bool)
    ensures
        r == keyword_at(lexemes(symbols@), i as int, w@),
{
    if i >= symbols.len() {
        return false;
    }
    match &symbols[i] {
        Symbol::Keyword(k) => same_text(k.as_str(), w),
        _ => false,
    }
}

/// A message that names the context, what was expected there and the token
/// found at `i`.
fn complaint(context: &str, expected: &str, symbols: &Vec<Symbol>, i: usize) -> (r: String)
    ensures
        r@ == complaint_text(context@, expected@, lexemes(symbols@), i as int),
        names_token(r@, lexemes(symbols@), i as int),
{
    let found = if i < symbols.len() {
        let mut q = String::from_str("'");
        let text = symbols[i].to_text();
        q.append(text.as_str());
        q.append("'");
        q
    } else {
        String::from_str("the end of the program")
    };
    let mut out = String::from_str(context);
    out.append(": expected ");
    out.append(expected);
    out.append(", found ");
    let ghost prefix = out@;
    out.append(found.as_str());
    out.append(".");
    assert(out@ == prefix + found_text(lexemes(symbols@), i as int) + "."@);
    out
}

/// The context `In 'v := ..'` for an assignment to `v`.
fn assignment_context(v: &String) -> (r: String)
    ensures
        r@ == "In '"@ + v@ + " := ..'"@,
{
    let mut out = String::from_str("In '");
    out.append(v.as_str());
    out.append(" := ..'");
    out
}

/// Parses one statement from token `i` on; on success returns the index of
/// the first token after it. An error message names the statement and the
/// token at fault.
fn parse_statement(config: &Config, symbols: &Vec<Symbol>, i: usize) -> (r: Result<
    (usize, Statement),
    String,
>)
    ensures
        match parse_stmt(*config, lexemes(symbols@), i as int) {
            Ok((j, p)) => r matches Ok((k, s)) && k == j && s@ == p,
            Err(k) => r matches Err(m) && names_token(m@, lexemes(symbols@), k),
        },
        r matches Ok((k, _)) ==> i < k <= symbols.len(),
    decreases symbols.len() - i, 0int,
{
    let ghost t = lexemes(symbols@);
    let len = symbols.len();
    if i >= len {
        return Err(complaint("At the start of a statement", "a statement", symbols, i));
    }
    match &symbols[i] {
        Symbol::Variable(v0) => {
            let ctx = assignment_context(v0);
            if !(i + 1 < len && matches!(symbols[i + 1], Symbol::Declare)) {
                return Err(complaint(ctx.as_str(), "':=' after the variable", symbols, i + 1));
            }
            let a = match operand(symbols, i + 2) {
                Some(a) => a,
                None => {
                    return Err(
                        complaint(ctx.as_str(), "a variable or constant after ':='", symbols, i + 2),
                    );
                },
            };
            if i + 3 < len {
                if let Symbol::Operator(op) = &symbols[i + 3] {
                    let op = *op;
                    let b = match operand(symbols, i + 4) {
                        Some(b) => b,
                        None => {
                            return Err(
                                complaint(
                                    ctx.as_str(),
                                    "a variable or constant after the operator",
                                    symbols,
                                    i + 4,
                                ),
                            );
                        },
                    };
                    if op == Operator::Multiply && !config.extra_operators {
                        return Err(
                            complaint(
                                ctx.as_str(),
                                "'+' or '-' ('extra_operators' is off)",
                                symbols,
                                i + 3,
                            ),
                        );
                    }
                    if !config.allow_constants_everywhere {
                        if matches!(a, Value::Constant(_)) {
                            return Err(
                                complaint(
                                    ctx.as_str(),
                                    "a variable as operand ('allow_constants_everywhere' is off)",
                                    symbols,
                                    i + 2,
                                ),
                            );
                        }
                        if matches!(b, Value::Constant(_)) {
                            return Err(
                                complaint(
                                    ctx.as_str(),
                                    "a variable as operand ('allow_constants_everywhere' is off)",
                                    symbols,
                                    i + 4,
                                ),
                            );
                        }
                    }
                    return Ok((i + 5, Statement::DeclareOperation(v0.clone(), a, op, b)));
                }
            }
            if matches!(a, Value::Variable(_)) && !config.allow_constants_everywhere {
                return Err(
                    complaint(
                        ctx.as_str(),
                        "a constant, or an operation ('allow_constants_everywhere' is off)",
                        symbols,
                        i + 2,
                    ),
                );
            }
            Ok((i + 3, Statement::DeclareConst(v0.clone(), a)))
        },
        Symbol::Keyword(_) if keyword_is(symbols, i, "while") => {
            let ctx = "In 'while x != 0 do .. od'";
            let cv = if i + 1 < len {
                match &symbols[i + 1] {
                    Symbol::Variable(cv) => cv,
                    _ => {
                        return Err(complaint(ctx, "a variable after 'while'", symbols, i + 1));
                    },
                }
            } else {
                return Err(complaint(ctx, "a variable after 'while'", symbols, i + 1));
            };
            if !(i + 2 < len && matches!(symbols[i + 2], Symbol::NotEquals)) {
                return Err(complaint(ctx, "'!='", symbols, i + 2));
            }
            if !(i + 3 < len && matches!(symbols[i + 3], Symbol::Constant(0))) {
                return Err(complaint(ctx, "'0'", symbols, i + 3));
            }
            if !keyword_is(symbols, i + 4, "do") {
                return Err(complaint(ctx, "'do'", symbols, i + 4));
            }
            let (e, body) = match parse(config, symbols, i + 5) {
                Ok(p) => p,
                Err(m) => {
                    return Err(m);
                },
            };
            let j = e + 1;
            if !keyword_is(symbols, j, "od") {
                return Err(complaint(ctx, "'od' to close the loop", symbols, j));
            }
            Ok((j + 1, Statement::While(cv.clone(), Box::new(body))))
        },
        _ => Err(complaint("At the start of a statement", "a variable or 'while'", symbols, i)),
    }
}

/// Parses a program from token `index` on: statements separated by `;`, up
/// to an `od` or the end of the tokens. On success returns the index of the
/// last token read, and the statement. An error message ends by naming the
/// token at fault, or the end of the program.
pub fn parse(config: &Config, symbols: &Vec<Symbol>, index: usize) -> (r: Result<
    (usize, Statement),
    String,
>)
    ensures
        match parse_prog(*config, lexemes(symbols@), index as int) {
            Ok((j, p)) => r matches Ok((e, s)) && e + 1 == j && s@ == p,
            Err(k) => r matches Err(m) && names_token(m@, lexemes(symbols@), k),
        },
        r matches Ok((e, _)) ==> index <= e < symbols.len(),
    decreases symbols.len() - index, 1int,
{
    let ghost t = lexemes(symbols@);
    let len = symbols.len();
    if index >= len {
        return Err(complaint("At the start of a statement", "a statement", symbols, index));
    }
    let (first_end, first) = match parse_statement(config, symbols, index) {
        Ok(p) => p,
        Err(m) => {
            return Err(m);
        },
    };
    let mut j = first_end;
    let mut stmt = first;
    while j < len && !keyword_is(symbols, j, "od")
        invariant
            len == symbols.len(),
            t == lexemes(symbols@),
            index < j <= len,
            parse_prog(*config, t, index as int) == parse_rest(*config, t, j as int, stmt@),
        decreases len - j,
    {
        if !matches!(symbols[j], Symbol::EOS) {
            return Err(complaint("After a statement", "';', 'od' or the end", symbols, j));
        }
        let (k, next) = match parse_statement(config, symbols, j + 1) {
            Ok(p) => p,
            Err(m) => {
                return Err(m);
            },
        };
        stmt = Statement::S(Box::new(stmt), Box::new(next));
        j = k;
    }
    Ok((j - 1, stmt))
}

} // verus!
