//! The two error taxonomies: lexical errors and evaluation errors.

use vstd::prelude::*;

verus! {

/// An error raised while classifying source text into tokens.
#[derive(PartialEq, Eq, Debug)]
pub enum LexerError {
    /// A substring matched none of the recognized token shapes.
    InvalidToken(String),
    /// Reserved for interactive or streaming variants that detect a
    /// prematurely terminated input window; a finite-line lexer never
    /// raises it.
    UnexpectedEof,
}

/// The mathematical model of a [`LexerError`].
pub enum LexerErrorView {
    InvalidToken(Seq<char>),
    UnexpectedEof,
}

impl View for LexerError {
    type V = LexerErrorView;

    open spec fn view(&self) -> LexerErrorView {
        match self {
            LexerError::InvalidToken(s) => LexerErrorView::InvalidToken(s@),
            LexerError::UnexpectedEof => LexerErrorView::UnexpectedEof,
        }
    }
}

/// An error raised while evaluating tokens.
///
/// Division by zero and results outside the `isize` range are reported as
/// the explicit kinds [`EvalError::DivisionByZero`] and
/// [`EvalError::NumericOverflow`] rather than inherited as a platform trap.
#[derive(PartialEq, Eq, Copy, Clone, Debug)]
pub enum EvalError {
    /// A pop was requested while the stack was empty.
    StackUnderflow,
    /// An operator was applied to operands that are not numbers.
    InvalidOperand,
    /// Reserved for contexts coercing a token to a numeric value outside the
    /// operator path.
    NotANumber,
    /// A semicolon was seen while interpreting.
    UnexpectedSemicolon,
    /// A colon was seen while already compiling.
    UnexpectedColon,
    /// A definition was closed while its buffer was empty or did not start
    /// with a word.
    InvalidDefinition,
    /// A word was invoked that the dictionary does not hold.
    NoDefinition,
    /// A division by zero was requested.
    DivisionByZero,
    /// An arithmetic result does not fit in `isize`.
    NumericOverflow,
}

impl LexerError {
    /// A human-readable description of the error.
    pub fn message(&self) -> (m: String)
        ensures
            match self {
                LexerError::InvalidToken(s) => m@ == "invalid token: "@ + s@,
                LexerError::UnexpectedEof => m@ == "unexpected end of input"@,
            },
    {
        match self {
            LexerError::InvalidToken(s) => String::from_str("invalid token: ").concat(s.as_str()),
            LexerError::UnexpectedEof => String::from_str("unexpected end of input"),
        }
    }
}

impl EvalError {
    /// A human-readable description of the error.
    pub fn message(&self) -> (m: String)
        ensures
            match self {
                EvalError::StackUnderflow => m@ == "stack underflow"@,
                EvalError::InvalidOperand => m@ == "invalid operand"@,
                EvalError::NotANumber => m@ == "not a number"@,
                EvalError::UnexpectedSemicolon => m@ == "unexpected semicolon"@,
                EvalError::UnexpectedColon => m@ == "unexpected colon"@,
                EvalError::InvalidDefinition => m@ == "definition did not start with word"@,
                EvalError::NoDefinition => m@ == "no definition found"@,
                EvalError::DivisionByZero => m@ == "division by zero"@,
                EvalError::NumericOverflow => m@ == "numeric overflow"@,
            },
    {
        match self {
            EvalError::StackUnderflow => String::from_str("stack underflow"),
            EvalError::InvalidOperand => String::from_str("invalid operand"),
            EvalError::NotANumber => String::from_str("not a number"),
            EvalError::UnexpectedSemicolon => String::from_str("unexpected semicolon"),
            EvalError::UnexpectedColon => String::from_str("unexpected colon"),
            EvalError::InvalidDefinition => String::from_str("definition did not start with word"),
            EvalError::NoDefinition => String::from_str("no definition found"),
            EvalError::DivisionByZero => String::from_str("division by zero"),
            EvalError::NumericOverflow => String::from_str("numeric overflow"),
        }
    }
}

} // verus!
