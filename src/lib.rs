//! An interpreter for WHILE programs: a lexer, a recursive-descent parser and a
//! tree-walking evaluator, each stated against a mathematical model of its
//! input and output.

pub mod config;
pub mod interpreter;
pub mod parser;
pub mod run;
pub mod symbolizer;
pub mod text;

pub use config::Config;
pub use interpreter::{interpret, InterpretError};
pub use parser::{parse, Statement, Value};
pub use run::{run, run_with_state, RuntimeError, VarStore, MAX_ITERATIONS};
pub use symbolizer::{symbolize, LexErrorKind, Operator, Symbol, SymbolError};
