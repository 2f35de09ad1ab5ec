use vstd::prelude::*;

use crate::config::{enabled, Config};
use crate::text::{decimal, push_decimal, same_text};
use vstd::std_specs::iter::IteratorSpec;

verus! {

/// An arithmetic operator.
#[derive(Clone, Copy, Debug, PartialEq, Eq, Structural)]
pub enum Operator {
    Subtract,
    Add,
    Multiply,
}

/// A token of program text.
#[derive(Debug)]
pub enum Symbol {
    Variable(String),
    Constant(u64),
    Keyword(String),
    Operator(Operator),
    /// `:=`
    Declare,
    /// `!=`
    NotEquals,
    /// `;`, the end of a statement.
    EOS,
}

/// What a token stands for, with names as character sequences.
pub enum Lexeme {
    Variable(Seq<char>),
    Constant(u64),
    Keyword(Seq<char>),
    Operator(Operator),
    Declare,
    NotEquals,
    Eos,
}

impl View for Symbol {
    type V = Lexeme;

    open spec fn view(&self) -> Lexeme {
        match self {
            Symbol::Variable(v) => Lexeme::Variable(v@),
            Symbol::Constant(c) => Lexeme::Constant(*c),
            Symbol::Keyword(k) => Lexeme::Keyword(k@),
            Symbol::Operator(o) => Lexeme::Operator(*o),
            Symbol::Declare => Lexeme::Declare,
            Symbol::NotEquals => Lexeme::NotEquals,
            Symbol::EOS => Lexeme::Eos,
        }
    }
}

/// The text that a token is written as.
pub open spec fn lexeme_text(x: Lexeme) -> Seq<char> {
    match x {
        Lexeme::Variable(v) => v,
        Lexeme::Constant(c) => decimal(c as nat),
        Lexeme::Keyword(k) => k,
        Lexeme::Operator(Operator::Add) => "+"@,
        Lexeme::Operator(Operator::Subtract) => "-"@,
        Lexeme::Operator(Operator::Multiply) => "*"@,
        Lexeme::Declare => ":="@,
        Lexeme::NotEquals => "!="@,
        Lexeme::Eos => ";"@,
    }
}

impl Symbol {
    /// The text that this token is written as.
    pub fn to_text(&self) -> (r: String)
        ensures
            r@ == lexeme_text(self@),
    {
        match self {
            Symbol::Variable(v) => v.clone(),
            Symbol::Constant(c) => {
                let mut out = String::new();
                push_decimal(&mut out, *c);
                out
            },
            Symbol::Keyword(k) => k.clone(),
            Symbol::Operator(Operator::Add) => String::from_str("+"),
            Symbol::Operator(Operator::Subtract) => String::from_str("-"),
            Symbol::Operator(Operator::Multiply) => String::from_str("*"),
            Symbol::Declare => String::from_str(":="),
            Symbol::NotEquals => String::from_str("!="),
            Symbol::EOS => String::from_str(";"),
        }
    }
}

/// The lexemes of a token sequence.
pub open spec fn lexemes(v: Seq<Symbol>) -> Seq<Lexeme> {
    v.map_values(|s: Symbol| s@)
}

/// The two kinds of lexical failure.
#[derive(Clone, Copy, Debug, PartialEq, Eq, Structural)]
pub enum LexErrorKind {
    /// A character that starts no token, a malformed literal, or a bare `#`.
    UnknownSymbol,
    /// A pragma whose name is not the name of a flag.
    UnknownPragma,
}

/// The classes of characters that a run of one token is made of.
#[derive(Clone, Copy)]
pub enum CharClass {
    Digit,
    Word,
    Flag,
    NotClosing,
}

pub open spec fn is_digit(c: char) -> bool {
    '0' <= c && c <= '9'
}

pub open spec fn is_letter(c: char) -> bool {
    ('a' <= c && c <= 'z') || ('A' <= c && c <= 'Z')
}

/// The characters that Unicode calls white space.
pub open spec fn is_blank(c: char) -> bool {
    ('\u{9}' <= c && c <= '\u{d}') || c == ' ' || c == '\u{85}' || c == '\u{a0}'
        || c == '\u{1680}' || ('\u{2000}' <= c && c <= '\u{200a}') || c == '\u{2028}'
        || c == '\u{2029}' || c == '\u{202f}' || c == '\u{205f}' || c == '\u{3000}'
}

pub open spec fn in_class(k: CharClass, c: char) -> bool {
    match k {
        CharClass::Digit => is_digit(c),
        CharClass::Word => is_letter(c) || is_digit(c) || c == '_',
        CharClass::Flag => is_letter(c) || c == '_' || c == '-',
        CharClass::NotClosing => c != ']',
    }
}

/// The length of the longest prefix of `t` whose characters are all in `k`.
pub open spec fn run_len(t: Seq<char>, k: CharClass) -> nat
    decreases t.len(),
{
    if t.len() > 0 && in_class(k, t[0]) {
        1 + run_len(t.drop_first(), k)
    } else {
        0
    }
}

/// The number that a sequence of decimal digits writes.
pub open spec fn decimal_value(d: Seq<char>) -> nat
    decreases d.len(),
{
    if d.len() == 0 {
        0
    } else {
        decimal_value(d.drop_last()) * 10 + ((d.last() as int - '0' as int) as nat)
    }
}

pub open spec fn is_keyword(w: Seq<char>) -> bool {
    w == "while"@ || w == "do"@ || w == "od"@
}

pub open spec fn starts_with(t: Seq<char>, w: Seq<char>) -> bool {
    w.len() <= t.len() && t.subrange(0, w.len() as int) == w
}

/// What the lexer does at the start of `t`: skip some characters (perhaps
/// changing the configuration), emit a token made of some characters, or fail.
pub enum Scan {
    Skip(nat, Config),
    Emit(Lexeme, nat),
    Fail(LexErrorKind),
}

/// One step of the lexer on the non-empty remaining input `t`.
pub open spec fn scan(c: Config, t: Seq<char>) -> Scan {
    let h = t[0];
    if h == '#' {
        let n = run_len(t.drop_first(), CharClass::Flag);
        if n == 0 {
            Scan::Fail(LexErrorKind::UnknownSymbol)
        } else {
            match enabled(c, t.subrange(1, 1 + n as int)) {
                Some(c2) => Scan::Skip(1 + n, c2),
                None => Scan::Fail(LexErrorKind::UnknownPragma),
            }
        }
    } else if h == '[' {
        let n = run_len(t.drop_first(), CharClass::NotClosing);
        if 1 + n < t.len() {
            Scan::Skip(n + 2, c)
        } else {
            Scan::Skip(t.len(), c)
        }
    } else if h == ':' && t.len() > 1 && t[1] == '=' {
        Scan::Emit(Lexeme::Declare, 2)
    } else if h == '!' && t.len() > 1 && t[1] == '=' {
        Scan::Emit(Lexeme::NotEquals, 2)
    } else if h == '+' {
        Scan::Emit(Lexeme::Operator(Operator::Add), 1)
    } else if h == '-' {
        Scan::Emit(Lexeme::Operator(Operator::Subtract), 1)
    } else if h == '*' {
        Scan::Emit(Lexeme::Operator(Operator::Multiply), 1)
    } else if h == ';' {
        Scan::Emit(Lexeme::Eos, 1)
    } else if is_blank(h) {
        Scan::Skip(1, c)
    } else if is_digit(h) {
        let n = run_len(t, CharClass::Digit);
        let v = decimal_value(t.subrange(0, n as int));
        if v <= u64::MAX {
            Scan::Emit(Lexeme::Constant(v as u64), n)
        } else {
            Scan::Fail(LexErrorKind::UnknownSymbol)
        }
    } else if c.allow_named_vars {
        if is_letter(h) || h == '_' {
            let n = run_len(t, CharClass::Word);
            let w = t.subrange(0, n as int);
            if is_keyword(w) {
                Scan::Emit(Lexeme::Keyword(w), n)
            } else {
                Scan::Emit(Lexeme::Variable(w), n)
            }
        } else {
            Scan::Fail(LexErrorKind::UnknownSymbol)
        }
    } else if h == 'x' && t.len() > 1 && is_digit(t[1]) {
        let n = 1 + run_len(t.drop_first(), CharClass::Digit);
        Scan::Emit(Lexeme::Variable(t.subrange(0, n as int)), n)
    } else if starts_with(t, "while"@) {
        Scan::Emit(Lexeme::Keyword("while"@), "while"@.len())
    } else if starts_with(t, "do"@) {
        Scan::Emit(Lexeme::Keyword("do"@), "do"@.len())
    } else if starts_with(t, "od"@) {
        Scan::Emit(Lexeme::Keyword("od"@), "od"@.len())
    } else {
        Scan::Fail(LexErrorKind::UnknownSymbol)
    }
}

/// The outcome of lexing: the tokens and the configuration at the end, or the
/// kind of failure, the length of the input left where it came, and the
/// configuration then.
pub enum Lexed {
    Done(Seq<Lexeme>, Config),
    Failed(LexErrorKind, nat, Config),
}

pub open spec fn prepend(p: Seq<Lexeme>, r: Lexed) -> Lexed {
    match r {
        Lexed::Done(ts, c) => Lexed::Done(p + ts, c),
        Lexed::Failed(k, n, c) => Lexed::Failed(k, n, c),
    }
}

/// The lexer on the remaining input `t` under configuration `c`.
pub open spec fn lex(c: Config, t: Seq<char>) -> Lexed
    decreases t.len(),
{
    if t.len() == 0 {
        Lexed::Done(Seq::empty(), c)
    } else {
        match scan(c, t) {
            Scan::Skip(n, c2) => if 0 < n <= t.len() {
                lex(c2, t.skip(n as int))
            } else {
                Lexed::Done(Seq::empty(), c)
            },
            Scan::Emit(x, n) => if 0 < n <= t.len() {
                prepend(seq![x], lex(c, t.skip(n as int)))
            } else {
                Lexed::Done(Seq::empty(), c)
            },
            Scan::Fail(k) => Lexed::Failed(k, t.len(), c),
        }
    }
}

/// Line and column, both counted from one, of the character at index `i`.
pub open spec fn position(s: Seq<char>, i: int) -> (nat, nat)
    decreases i,
{
    if i <= 0 {
        (1, 1)
    } else {
        let (l, c) = position(s, i - 1);
        if s[i - 1] == '\n' {
            (l + 1, 1)
        } else {
            (l, c + 1)
        }
    }
}

/// The characters of `s`, in order.
fn chars_of(s: &str) -> (v: Vec<char>)
    ensures
        v@ == s@,
{
    let n = s.unicode_len();
    let mut v: Vec<char> = Vec::new();
    let mut it = s.chars();
    broadcast use vstd::string::group_string_axioms;
    while v.len() < n
        invariant
            n == s@.len(),
            v.len() <= n,
            v@ == s@.subrange(0, v.len() as int),
            it.remaining() == s@.skip(v.len() as int),
            it.obeys_prophetic_iter_laws(),
        decreases n - v.len(),
    {
        match it.next() {
            Some(c) => {
                v.push(c);
            },
            None => {
                return v;
            },
        }
    }
    assert(v@ == s@);
    v
}

fn class_has(k: CharClass, c: char) -> (r: bool)
    ensures
        r == in_class(k, c),
{
    let letter = ('a' <= c && c <= 'z') || ('A' <= c && c <= 'Z');
    match k {
        CharClass::Digit => '0' <= c && c <= '9',
        CharClass::Word => letter || ('0' <= c && c <= '9') || c == '_',
        CharClass::Flag => letter || c == '_' || c == '-',
        CharClass::NotClosing => c != ']',
    }
}

fn blank(c: char) -> (r: bool)
    ensures
        r == is_blank(c),
{
    ('\u{9}' <= c && c <= '\u{d}') || c == ' ' || c == '\u{85}' || c == '\u{a0}' || c
        == '\u{1680}' || ('\u{2000}' <= c && c <= '\u{200a}') || c == '\u{2028}' || c
        == '\u{2029}' || c == '\u{202f}' || c == '\u{205f}' || c == '\u{3000}'
}

/// The end of the longest run of characters of class `k` that starts at `i`.
fn run_end(s: &Vec<char>, i: usize, k: CharClass) -> (r: usize)
    requires
        i <= s.len(),
    ensures
        r == i + run_len(s@.skip(i as int), k),
        r <= s.len(),
{
    let mut j = i;
    while j < s.len() && class_has(k, s[j])
        invariant
            i <= j <= s.len(),
            run_len(s@.skip(i as int), k) == (j - i) + run_len(s@.skip(j as int), k),
        decreases s.len() - j,
    {
        assert(s@.skip(j as int).drop_first() == s@.skip(j + 1));
        j = j + 1;
    }
    j
}

proof fn lemma_run_within(t: Seq<char>, k: CharClass)
    ensures
        run_len(t, k) <= t.len(),
        forall|i: int| 0 <= i < run_len(t, k) ==> in_class(k, #[trigger] t[i]),
    decreases t.len(),
{
    if t.len() > 0 && in_class(k, t[0]) {
        lemma_run_within(t.drop_first(), k);
        assert forall|i: int| 0 <= i < run_len(t, k) implies in_class(k, #[trigger] t[i]) by {
            if i > 0 {
                assert(t[i] == t.drop_first()[i - 1]);
            }
        }
    }
}

proof fn lemma_value_grows(d: Seq<char>, k: int)
    requires
        0 <= k <= d.len(),
        forall|i: int| 0 <= i < d.len() ==> is_digit(#[trigger] d[i]),
    ensures
        decimal_value(d.subrange(0, k)) <= decimal_value(d),
    decreases d.len(),
{
    if k < d.len() {
        let p = d.drop_last();
        assert(p.subrange(0, k) == d.subrange(0, k));
        lemma_value_grows(p, k);
    } else {
        assert(d.subrange(0, k) == d);
    }
}

/// The number written by the digits in `s[i..end]`, where it fits in `u64`.
fn decimal_at(s: &Vec<char>, i: usize, end: usize) -> (r: Option<u64>)
    requires
        i <= end <= s.len(),
        forall|j: int| i <= j < end ==> is_digit(#[trigger] s@[j]),
    ensures
        match r {
            Some(v) => v == decimal_value(s@.subrange(i as int, end as int)),
            None => decimal_value(s@.subrange(i as int, end as int)) > u64::MAX,
        },
{
    let ghost whole = s@.subrange(i as int, end as int);
    assert forall|k: int| 0 <= k < whole.len() implies is_digit(#[trigger] whole[k]) by {
        assert(whole[k] == s@[i + k]);
    }
    let mut val: u64 = 0;
    let mut j = i;
    assert(s@.subrange(i as int, i as int) == Seq::<char>::empty());
    while j < end
        invariant
            i <= j <= end <= s.len(),
            val == decimal_value(s@.subrange(i as int, j as int)),
            whole == s@.subrange(i as int, end as int),
            forall|k: int| 0 <= k < whole.len() ==> is_digit(#[trigger] whole[k]),
        decreases end - j,
    {
        assert(whole[j - i] == s@[j as int]);
        let d = (s[j] as u32 - '0' as u32) as u64;
        let ghost next = s@.subrange(i as int, j + 1);
        assert(next.drop_last() == s@.subrange(i as int, j as int));
        assert(next.last() == s@[j as int]);
        match val.checked_mul(10) {
            Some(m) => match m.checked_add(d) {
                Some(v) => {
                    val = v;
                },
                None => {
                    proof {
                        assert(whole.subrange(0, j + 1 - i) == next);
                        lemma_value_grows(whole, j + 1 - i);
                    }
                    return None;
                },
            },
            None => {
                proof {
                    assert(whole.subrange(0, j + 1 - i) == next);
                    lemma_value_grows(whole, j + 1 - i);
                }
                return None;
            },
        }
        j = j + 1;
    }
    Some(val)
}

/// Whether the characters of `w` stand in `s` from index `i` on.
fn word_at(s: &Vec<char>, i: usize, w: &str) -> (r: bool)
    requires
        i <= s.len(),
    ensures
        r == starts_with(s@.skip(i as int), w@),
{
    let n = w.unicode_len();
    if n > s.len() - i {
        return false;
    }
    let mut k: usize = 0;
    while k < n
        invariant
            n == w@.len(),
            i + n <= s.len(),
            k <= n,
            s@.subrange(i as int, i + k) == w@.subrange(0, k as int),
        decreases n - k,
    {
        if s[i + k] != w.get_char(k) {
            assert(s@.skip(i as int).subrange(0, n as int)[k as int] == s@[i + k]);
            return false;
        }
        assert(s@.subrange(i as int, i + k + 1) == s@.subrange(i as int, i + k).push(s@[i + k]));
        assert(w@.subrange(0, k + 1) == w@.subrange(0, k as int).push(w@[k as int]));
        k = k + 1;
    }
    assert(s@.skip(i as int).subrange(0, n as int) == s@.subrange(i as int, i + n));
    assert(w@.subrange(0, n as int) == w@);
    true
}

/// The keyword token for the word `w`.
fn keyword(w: &str) -> (r: Symbol)
    ensures
        r@ == Lexeme::Keyword(w@),
{
    Symbol::Keyword(String::from_str(w))
}

/// One step of the lexer at index `i` of `src`, whose characters are `s`:
/// the token read, if any, and the index where the next step starts.
fn next_symbol(config: &mut Config, src: &str, s: &Vec<char>, i: usize) -> (r: Result<
    (Option<Symbol>, usize),
    LexErrorKind,
>)
    requires
        i < s.len(),
        s@ == src@,
    ensures
        match scan(*old(config), s@.skip(i as int)) {
            Scan::Skip(n, c2) => r matches Ok((None, j)) && j == i + n && *final(config) == c2,
            Scan::Emit(x, n) => r matches Ok((Some(y), j)) && y@ == x && j == i + n
                && *final(config) == *old(config),
            Scan::Fail(k) => r matches Err(k2) && k2 == k && *final(config) == *old(config),
        },
{
    let ghost t = s@.skip(i as int);
    assert(t.drop_first() == s@.skip(i + 1));
    let len = s.len();
    let h = s[i];
    let second = if i + 1 < len {
        Some(s[i + 1])
    } else {
        None
    };
    if h == '#' {
        let e = run_end(s, i + 1, CharClass::Flag);
        if e == i + 1 {
            return Err(LexErrorKind::UnknownSymbol);
        }
        let name = src.substring_char(i + 1, e);
        assert(t.subrange(1, (e - i) as int) == s@.subrange(i + 1, e as int));
        match config.enable(name) {
            Ok(()) => Ok((None, e)),
            Err(()) => Err(LexErrorKind::UnknownPragma),
        }
    } else if h == '[' {
        let e = run_end(s, i + 1, CharClass::NotClosing);
        if e < len {
            Ok((None, e + 1))
        } else {
            Ok((None, len))
        }
    } else if h == ':' && second == Some('=') {
        Ok((Some(Symbol::Declare), i + 2))
    } else if h == '!' && second == Some('=') {
        Ok((Some(Symbol::NotEquals), i + 2))
    } else if h == '+' {
        Ok((Some(Symbol::Operator(Operator::Add)), i + 1))
    } else if h == '-' {
        Ok((Some(Symbol::Operator(Operator::Subtract)), i + 1))
    } else if h == '*' {
        Ok((Some(Symbol::Operator(Operator::Multiply)), i + 1))
    } else if h == ';' {
        Ok((Some(Symbol::EOS), i + 1))
    } else if blank(h) {
        Ok((None, i + 1))
    } else if '0' <= h && h <= '9' {
        let e = run_end(s, i, CharClass::Digit);
        proof {
            lemma_run_within(t, CharClass::Digit);
            assert forall|j: int| i <= j < e implies is_digit(#[trigger] s@[j]) by {
                assert(s@[j] == t[j - i]);
            }
            assert(t.subrange(0, (e - i) as int) == s@.subrange(i as int, e as int));
        }
        match decimal_at(s, i, e) {
            Some(v) => Ok((Some(Symbol::Constant(v)), e)),
            None => Err(LexErrorKind::UnknownSymbol),
        }
    } else if config.allow_named_vars {
        if ('a' <= h && h <= 'z') || ('A' <= h && h <= 'Z') || h == '_' {
            let e = run_end(s, i, CharClass::Word);
            let w = src.substring_char(i, e);
            assert(t.subrange(0, (e - i) as int) == s@.subrange(i as int, e as int));
            if same_text(w, "while") || same_text(w, "do") || same_text(w, "od") {
                Ok((Some(keyword(w)), e))
            } else {
                Ok((Some(Symbol::Variable(String::from_str(w))), e))
            }
        } else {
            Err(LexErrorKind::UnknownSymbol)
        }
    } else if h == 'x' && i + 1 < len && '0' <= s[i + 1] && s[i + 1] <= '9' {
        let e = run_end(s, i + 1, CharClass::Digit);
        let w = src.substring_char(i, e);
        assert(t.subrange(0, (e - i) as int) == s@.subrange(i as int, e as int));
        Ok((Some(Symbol::Variable(String::from_str(w))), e))
    } else if word_at(s, i, "while") {
        Ok((Some(keyword("while")), i + "while".unicode_len()))
    } else if word_at(s, i, "do") {
        Ok((Some(keyword("do")), i + "do".unicode_len()))
    } else if word_at(s, i, "od") {
        Ok((Some(keyword("od")), i + "od".unicode_len()))
    } else {
        Err(LexErrorKind::UnknownSymbol)
    }
}

/// A lexical failure, with the line and column (both counted from one) of the
/// character where it came.
#[derive(Debug)]
pub struct SymbolError {
    pub kind: LexErrorKind,
    pub msg: String,
    pub line: usize,
    pub pos: usize,
}

impl SymbolError {
    /// An unknown symbol at `line`:`pos`.
    pub fn new(line: usize, pos: usize, msg: &str) -> (r: SymbolError)
        ensures
            r.kind == LexErrorKind::UnknownSymbol,
            r.line == line,
            r.pos == pos,
            r.msg@ == msg@,
    {
        SymbolError { kind: LexErrorKind::UnknownSymbol, msg: String::from_str(msg), line, pos }
    }

    /// An unknown pragma at `line`:`pos`.
    pub fn pragma(line: usize, pos: usize, msg: &str) -> (r: SymbolError)
        ensures
            r.kind == LexErrorKind::UnknownPragma,
            r.line == line,
            r.pos == pos,
            r.msg@ == msg@,
    {
        SymbolError { kind: LexErrorKind::UnknownPragma, msg: String::from_str(msg), line, pos }
    }

    /// The error as one line of text: `Syntax error on line <line>:<pos>: <msg>`.
    pub fn describe(&self) -> (r: String)
        ensures
            r@ == "Syntax error on line "@ + decimal(self.line as nat) + ":"@ + decimal(
                self.pos as nat,
            ) + ": "@ + self.msg@,
    {
        let mut out = String::from_str("Syntax error on line ");
        push_decimal(&mut out, self.line as u64);
        out.append(":");
        push_decimal(&mut out, self.pos as u64);
        out.append(": ");
        out.append(self.msg.as_str());
        out
    }
}

/// Each step of the lexer consumes at least one character and no more than
/// are left.
pub proof fn lemma_scan_progress(c: Config, t: Seq<char>)
    requires
        t.len() > 0,
    ensures
        match scan(c, t) {
            Scan::Skip(n, _) => 0 < n <= t.len(),
            Scan::Emit(_, n) => 0 < n <= t.len(),
            Scan::Fail(_) => true,
        },
{
    reveal_strlit("while");
    reveal_strlit("do");
    reveal_strlit("od");
    lemma_run_within(t, CharClass::Digit);
    lemma_run_within(t, CharClass::Word);
    lemma_run_within(t.drop_first(), CharClass::Digit);
    lemma_run_within(t.drop_first(), CharClass::Flag);
    lemma_run_within(t.drop_first(), CharClass::NotClosing);
    if is_digit(t[0]) {
        assert(run_len(t, CharClass::Digit) > 0);
    }
    if is_letter(t[0]) || t[0] == '_' {
        assert(run_len(t, CharClass::Word) > 0);
    }
}

/// The flag name of the pragma whose `#` stands at index `i` of `s`.
pub open spec fn flag_after(s: Seq<char>, i: int) -> Seq<char> {
    s.subrange(i + 1, i + 1 + run_len(s.skip(i + 1), CharClass::Flag))
}

/// The message for the unknown flag `name`.
pub open spec fn pragma_text(name: Seq<char>) -> Seq<char> {
    "Invalid configuration flag: #"@ + name
        + ". Run whily with --help to see the different possible options."@
}

fn pragma_message(name: &str) -> (r: String)
    ensures
        r@ == pragma_text(name@),
{
    let mut out = String::from_str("Invalid configuration flag: #");
    out.append(name);
    out.append(". Run whily with --help to see the different possible options.");
    out
}

/// Line and column of the character at index `i` of `s`.
fn locate(s: &Vec<char>, i: usize) -> (r: (usize, usize))
    requires
        i < s.len(),
    ensures
        (r.0 as nat, r.1 as nat) == position(s@, i as int),
{
    let mut line: usize = 1;
    let mut col: usize = 1;
    let mut k: usize = 0;
    while k < i
        invariant
            k <= i < s.len(),
            (line as nat, col as nat) == position(s@, k as int),
            1 <= line <= k + 1,
            1 <= col <= k + 1,
        decreases i - k,
    {
        if s[k] == '\n' {
            line = line + 1;
            col = 1;
        } else {
            col = col + 1;
        }
        k = k + 1;
    }
    (line, col)
}

/// Turns program text into tokens. A pragma `#name` turns on the flag `name`
/// in `config` for the rest of the text and for what is done with the tokens.
pub fn symbolize(config: &mut Config, input: &str) -> (r: Result<Vec<Symbol>, SymbolError>)
    ensures
        match lex(*old(config), input@) {
            Lexed::Done(ts, c) => r matches Ok(v) && lexemes(v@) == ts && *final(config) == c,
            Lexed::Failed(k, rest, c) => r matches Err(e) && e.kind == k && (
            e.line as nat,
            e.pos as nat,
            ) == position(input@, input@.len() - rest) && *final(config) == c && (k
                == LexErrorKind::UnknownPragma ==> e.msg@ == pragma_text(
                flag_after(input@, input@.len() - rest),
            )),
        },
{
    let s = chars_of(input);
    let mut symbols: Vec<Symbol> = Vec::new();
    let mut i: usize = 0;
    assert(s@.skip(0) == s@);
    assert(lexemes(symbols@) == Seq::<Lexeme>::empty());
    assert(prepend(Seq::empty(), lex(*config, s@)) == lex(*config, s@)) by {
        match lex(*config, s@) {
            Lexed::Done(ts, c) => {
                assert(Seq::<Lexeme>::empty() + ts == ts);
            },
            _ => {},
        }
    }
    while i < s.len()
        invariant
            s@ == input@,
            i <= s.len(),
            lex(*old(config), input@) == prepend(lexemes(symbols@), lex(*config, s@.skip(i as int))),
        decreases s.len() - i,
    {
        let ghost before = *config;
        let ghost t = s@.skip(i as int);
        proof {
            lemma_scan_progress(before, t);
        }
        match next_symbol(config, input, &s, i) {
            Ok((None, j)) => {
                assert(t.skip(j - i) == s@.skip(j as int));
                i = j;
            },
            Ok((Some(sym), j)) => {
                proof {
                    assert(t.skip(j - i) == s@.skip(j as int));
                    let x = sym@;
                    assert(lexemes(symbols@.push(sym)) == lexemes(symbols@).push(x));
                    match lex(before, s@.skip(j as int)) {
                        Lexed::Done(ts, c) => {
                            assert(lexemes(symbols@) + (seq![x] + ts) == lexemes(symbols@).push(x)
                                + ts);
                        },
                        _ => {},
                    }
                }
                symbols.push(sym);
                i = j;
            },
            Err(k) => {
                let (line, pos) = locate(&s, i);
                let e = match k {
                    LexErrorKind::UnknownSymbol => SymbolError::new(
                        line,
                        pos,
                        "Unknown symbol, keyword or variable name",
                    ),
                    LexErrorKind::UnknownPragma => {
                        let e = run_end(&s, i + 1, CharClass::Flag);
                        let name = input.substring_char(i + 1, e);
                        let msg = pragma_message(name);
                        SymbolError::pragma(line, pos, msg.as_str())
                    },
                };
                return Err(e);
            },
        }
    }
    proof {
        assert(s@.skip(i as int) == Seq::<char>::empty());
        assert(lexemes(symbols@) + Seq::<Lexeme>::empty() == lexemes(symbols@));
    }
    Ok(symbols)
}

/// The number `n` of a canonical variable name `x<n>`, where it fits in `u64`.
pub open spec fn canonical_number(name: Seq<char>) -> Option<u64> {
    if name.len() > 1 && name[0] == 'x' && (forall|i: int|
        1 <= i < name.len() ==> is_digit(#[trigger] name[i])) && decimal_value(
        name.subrange(1, name.len() as int),
    ) <= u64::MAX {
        Some(decimal_value(name.subrange(1, name.len() as int)) as u64)
    } else {
        None
    }
}

/// The number of a canonical variable name: `Some(12)` for `x12`, `None` for
/// a name of another form. Displays list `x2` before `x12` by it.
pub fn variable_number(name: &str) -> (r: Option<u64>)
    ensures
        r == canonical_number(name@),
{
    let s = chars_of(name);
    if s.len() <= 1 || s[0] != 'x' {
        return None;
    }
    let e = run_end(&s, 1, CharClass::Digit);
    proof {
        lemma_run_within(s@.skip(1), CharClass::Digit);
        assert forall|j: int| 1 <= j < e implies is_digit(#[trigger] s@[j]) by {
            assert(s@[j] == s@.skip(1)[j - 1]);
        }
    }
    if e != s.len() {
        proof {
            lemma_run_stops(s@.skip(1), CharClass::Digit);
            assert(s@[e as int] == s@.skip(1)[e - 1]);
        }
        return None;
    }
    decimal_at(&s, 1, e)
}

proof fn lemma_run_stops(t: Seq<char>, k: CharClass)
    ensures
        run_len(t, k) < t.len() ==> !in_class(k, t[run_len(t, k) as int]),
    decreases t.len(),
{
    if t.len() > 0 && in_class(k, t[0]) {
        lemma_run_stops(t.drop_first(), k);
    }
}

/// A name that is not of the form `x<digits>` and does not start with a
/// keyword: without `allow_named_vars`, lexing fails on its first character
/// with an unknown symbol; with the flag, it is read as one variable token.
/// Here the name is the run of word characters at the start of `t`.
pub proof fn lemma_named_variable(c: Config, t: Seq<char>)
    requires
        t.len() > 0,
        is_letter(t[0]) || t[0] == '_',
        !(t[0] == 'x' && t.len() > 1 && is_digit(t[1])),
        !starts_with(t, "while"@),
        !starts_with(t, "do"@),
        !starts_with(t, "od"@),
    ensures
        !c.allow_named_vars ==> lex(c, t) == Lexed::Failed(LexErrorKind::UnknownSymbol, t.len(), c),
        c.allow_named_vars ==> scan(c, t) == Scan::Emit(
            Lexeme::Variable(t.subrange(0, run_len(t, CharClass::Word) as int)),
            run_len(t, CharClass::Word),
        ),
{
    reveal_strlit("while");
    reveal_strlit("do");
    reveal_strlit("od");
    let n = run_len(t, CharClass::Word);
    lemma_run_within(t, CharClass::Word);
    if c.allow_named_vars {
        let w = t.subrange(0, n as int);
        assert(!is_keyword(w)) by {
            if w == "while"@ {
                assert(t.subrange(0, 5) == w);
            }
            if w == "do"@ {
                assert(t.subrange(0, 2) == w);
            }
            if w == "od"@ {
                assert(t.subrange(0, 2) == w);
            }
        }
    }
}

/// Whether a lexeme is an operator, a punctuation mark or a keyword.
pub open spec fn is_fixed(x: Lexeme) -> bool {
    match x {
        Lexeme::Variable(_) => false,
        Lexeme::Constant(_) => false,
        Lexeme::Keyword(k) => is_keyword(k),
        _ => true,
    }
}

/// The texts of the lexemes, separated by single spaces.
pub open spec fn joined_text(ts: Seq<Lexeme>) -> Seq<char>
    decreases ts.len(),
{
    if ts.len() == 0 {
        Seq::empty()
    } else if ts.len() == 1 {
        lexeme_text(ts[0])
    } else {
        lexeme_text(ts[0]) + seq![' '] + joined_text(ts.drop_first())
    }
}

proof fn lemma_run_prefix(w: Seq<char>, u: Seq<char>, k: CharClass)
    requires
        forall|i: int| 0 <= i < w.len() ==> in_class(k, #[trigger] w[i]),
        u.len() == 0 || !in_class(k, u[0]),
    ensures
        run_len(w + u, k) == w.len(),
    decreases w.len(),
{
    if w.len() == 0 {
        assert(w + u == u);
    } else {
        assert((w + u).drop_first() == w.drop_first() + u);
        assert forall|i: int| 0 <= i < w.drop_first().len() implies in_class(
            k,
            #[trigger] w.drop_first()[i],
        ) by {
            assert(w.drop_first()[i] == w[i + 1]);
        }
        assert(in_class(k, w[0]));
        lemma_run_prefix(w.drop_first(), u, k);
    }
}

proof fn lemma_scan_keyword(c: Config, w: Seq<char>, u: Seq<char>)
    requires
        is_keyword(w),
        u.len() == 0 || u[0] == ' ',
    ensures
        w.len() > 0,
        scan(c, w + u) == Scan::Emit(Lexeme::Keyword(w), w.len()),
{
    reveal_strlit("while");
    reveal_strlit("do");
    reveal_strlit("od");
    let t = w + u;
    assert(t.subrange(0, w.len() as int) == w);
    if c.allow_named_vars {
        assert forall|i: int| 0 <= i < w.len() implies in_class(CharClass::Word, #[trigger] w[i]) by {
        }
        lemma_run_prefix(w, u, CharClass::Word);
    } else {
        if w != "while"@ {
            assert(t[0] != 'w');
            assert(!starts_with(t, "while"@)) by {
                if starts_with(t, "while"@) {
                    assert(t.subrange(0, 5)[0] == t[0]);
                }
            }
        }
        if w == "od"@ {
            assert(!starts_with(t, "do"@)) by {
                if starts_with(t, "do"@) {
                    assert(t.subrange(0, 2)[0] == t[0]);
                }
            }
        }
    }
}

/// The scan of an operator, punctuation mark or keyword text followed by a
/// space, or by nothing, yields that token.
proof fn lemma_scan_fixed(c: Config, x: Lexeme, u: Seq<char>)
    requires
        is_fixed(x),
        u.len() == 0 || u[0] == ' ',
    ensures
        lexeme_text(x).len() > 0,
        scan(c, lexeme_text(x) + u) == Scan::Emit(x, lexeme_text(x).len()),
{
    reveal_strlit(":=");
    reveal_strlit("!=");
    reveal_strlit("+");
    reveal_strlit("-");
    reveal_strlit("*");
    reveal_strlit(";");
    let t = lexeme_text(x) + u;
    match x {
        Lexeme::Keyword(k) => {
            lemma_scan_keyword(c, k, u);
        },
        Lexeme::Declare => {
            assert(t[0] == ':' && t[1] == '=');
        },
        Lexeme::NotEquals => {
            assert(t[0] == '!' && t[1] == '=');
        },
        _ => {
            assert(t[0] == lexeme_text(x)[0]);
        },
    }
}

/// Operator, punctuation and keyword tokens survive a round trip through
/// their text: lexing their texts, separated by single spaces, gives back the
/// same tokens, with the configuration unchanged.
pub proof fn lemma_round_trip(c: Config, ts: Seq<Lexeme>)
    requires
        forall|i: int| 0 <= i < ts.len() ==> is_fixed(#[trigger] ts[i]),
    ensures
        lex(c, joined_text(ts)) == Lexed::Done(ts, c),
    decreases ts.len(),
{
    if ts.len() == 0 {
        assert(ts == Seq::<Lexeme>::empty());
    } else {
        let x = ts[0];
        let rest = ts.drop_first();
        assert(is_fixed(x));
        assert forall|i: int| 0 <= i < rest.len() implies is_fixed(#[trigger] rest[i]) by {
            assert(rest[i] == ts[i + 1]);
        }
        let u = if ts.len() == 1 {
            Seq::<char>::empty()
        } else {
            seq![' '] + joined_text(rest)
        };
        let t = lexeme_text(x) + u;
        assert(joined_text(ts) == t);
        lemma_scan_fixed(c, x, u);
        lemma_scan_progress(c, t);
        assert(t.skip(lexeme_text(x).len() as int) == u);
        lemma_round_trip(c, rest);
        if ts.len() == 1 {
            assert(rest == Seq::<Lexeme>::empty());
        } else {
            assert(u.skip(1) == joined_text(rest));
            assert(is_blank(u[0]));
            assert(lex(c, u) == lex(c, joined_text(rest)));
        }
        assert(seq![x] + rest == ts);
    }
}

/// Program text made of operator, punctuation and keyword words separated by
/// single spaces lexes to tokens whose texts, separated the same way, give
/// back that program text exactly.
pub proof fn lemma_text_round_trip(c: Config, words: Seq<Lexeme>)
    requires
        forall|i: int| 0 <= i < words.len() ==> is_fixed(#[trigger] words[i]),
    ensures
        lex(c, joined_text(words)) matches Lexed::Done(toks, c2) && c2 == c && joined_text(toks)
            == joined_text(words),
{
    lemma_round_trip(c, words);
}

/// A blank where a token may start changes nothing in the outcome of lexing.
pub proof fn lemma_blank_skipped(c: Config, b: char, t: Seq<char>)
    requires
        is_blank(b),
    ensures
        lex(c, seq![b] + t) == lex(c, t),
{
    let u = seq![b] + t;
    assert(u[0] == b);
    assert(u.skip(1) == t);
}

/// A comment where a token may start changes nothing in the outcome of
/// lexing.
pub proof fn lemma_comment_skipped(c: Config, body: Seq<char>, t: Seq<char>)
    requires
        forall|i: int| 0 <= i < body.len() ==> #[trigger] body[i] != ']',
    ensures
        lex(c, seq!['['] + body + seq![']'] + t) == lex(c, t),
{
    let u = seq!['['] + body + seq![']'] + t;
    let after = seq![']'] + t;
    assert(u.drop_first() == body + after);
    assert forall|i: int| 0 <= i < body.len() implies in_class(
        CharClass::NotClosing,
        #[trigger] body[i],
    ) by {}
    assert(after[0] == ']');
    lemma_run_prefix(body, after, CharClass::NotClosing);
    assert(u[0] == '[');
    assert(u.skip(body.len() + 2int) == t);
}

} // verus!
