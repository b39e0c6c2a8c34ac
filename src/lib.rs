//! An embeddable expression evaluator: a tokenizer, a precedence-climbing
//! parser and a tree-walking interpreter, generic over the numeric type.
pub mod calculator;
pub mod expr;
pub mod interpreter;
pub mod lexer;
pub mod num;
pub mod parser;
pub mod rendering;
pub mod tokenizer;

pub use calculator::{evaluate, EvalError};
pub use expr::Expr;
pub use interpreter::{ensure_arg_count, Builtin, InterpretError, Interpreter, Variant};
pub use lexer::{Keyword, Lexer, LexerError, Operator};
pub use num::Num;
pub use parser::{parse, ParseError, ParseErrorCode};
pub use tokenizer::{
    tokenize, tokenize_with_options, OpVal, SymbolVal, Token, TokenValue, TokenizeError,
    TokenizeErrorCode, TokenizeOptions,
};
