//! A minimal interpreter for a stack-based, Forth-like language.
//!
//! Source text is tokenized into whitespace-delimited tokens, arithmetic is
//! evaluated on an operand stack, and user-defined words (named macros) are
//! compiled via `:` / `;` blocks and replayed from a dictionary.

pub mod errors;
pub mod lexer;
pub mod numeral;
pub mod eval;
pub mod laws;
pub mod semantics;
pub mod token;
