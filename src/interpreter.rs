use vstd::prelude::*;

use crate::config::Config;
use crate::parser::{parse, parse_prog};
use crate::run::{eval, run, Fault, RuntimeError, VarStore};
use crate::symbolizer::{lex, position, symbolize, LexErrorKind, Lexed, SymbolError};

verus! {

/// Why a program could not be run to its end.
#[derive(Debug)]
pub enum InterpretError {
    Lex(SymbolError),
    Parse(String),
    Runtime(RuntimeError),
}

/// What running a program text comes to.
pub enum Outcome {
    /// Lexing failed with this kind at this character index.
    Lexical(LexErrorKind, int),
    /// The tokens do not form a program.
    Syntax,
    /// Evaluation failed.
    Fails(Fault),
    /// The store after the program.
    Store(Map<Seq<char>, u64>),
}

/// Lexing, parsing the whole token sequence as one program, and evaluating
/// it from an empty store, all under the configuration as the pragmas leave it.
pub open spec fn outcome(c: Config, src: Seq<char>) -> Outcome {
    match lex(c, src) {
        Lexed::Failed(k, rest, _) => Outcome::Lexical(k, src.len() - rest),
        Lexed::Done(ts, c2) => match parse_prog(c2, ts, 0) {
            Ok((j, p)) => if j == ts.len() {
                match eval(c2, p, Map::empty()) {
                    Ok(m) => Outcome::Store(m),
                    Err((f, _)) => Outcome::Fails(f),
                }
            } else {
                Outcome::Syntax
            },
            Err(_) => Outcome::Syntax,
        },
    }
}

/// Runs the program text `source` under `config`, with the pragmas in the text
/// taking effect from where they stand.
pub fn interpret(config: Config, source: &str) -> (r: Result<VarStore, InterpretError>)
    ensures
        match outcome(config, source@) {
            Outcome::Lexical(k, i) => r matches Err(InterpretError::Lex(e)) && e.kind == k && (
            e.line as nat,
            e.pos as nat,
            ) == position(source@, i),
            Outcome::Syntax => r matches Err(InterpretError::Parse(_)),
            Outcome::Fails(f) => r matches Err(InterpretError::Runtime(e)) && e@ == f,
            Outcome::Store(m) => r matches Ok(s) && s.wf() && s@ == m,
        },
{
    let mut c = config;
    let symbols = match symbolize(&mut c, source) {
        Ok(v) => v,
        Err(e) => {
            return Err(InterpretError::Lex(e));
        },
    };
    let (last, prog) = match parse(&c, &symbols, 0) {
        Ok(p) => p,
        Err(m) => {
            return Err(InterpretError::Parse(m));
        },
    };
    if last + 1 != symbols.len() {
        return Err(InterpretError::Parse(String::from_str("Unexpected 'od' outside a loop.")));
    }
    match run(&c, &prog) {
        Ok(s) => Ok(s),
        Err(e) => Err(InterpretError::Runtime(e)),
    }
}

/// Running the same program text twice under the same configuration gives
/// the same final store: the store that `interpret` returns is fixed by the
/// configuration and the text alone.
pub proof fn lemma_deterministic(
    c: Config,
    src: Seq<char>,
    first: Map<Seq<char>, u64>,
    second: Map<Seq<char>, u64>,
)
    requires
        outcome(c, src) == Outcome::Store(first),
        outcome(c, src) == Outcome::Store(second),
    ensures
        first == second,
{
}

} // verus!
