//! What can go wrong while reading an expression.
use vstd::prelude::*;

verus! {

/// Why an expression could not be read. Reading stops at the first problem.
#[derive(Clone, Copy, Debug, PartialEq, Eq, Structural)]
pub enum ParseError {
    /// The tokenizer could not classify a character or a keyword.
    InvalidToken,
    /// A token that cannot start an operand stands where an operand belongs.
    InvalidFactor,
    /// An operator stands where this tier of the grammar allows none.
    InvalidOperation,
    /// A `(` without its `)`, or a `)` without its `(`.
    UnbalancedParenthesis,
    /// `()` with nothing inside.
    EmptyGroup,
    /// The input ended before any operand was read.
    EmptyInput,
}

impl ParseError {
    pub open spec fn spec_message(self) -> Seq<char> {
        match self {
            ParseError::InvalidToken => "invalid token"@,
            ParseError::InvalidFactor => "invalid factor"@,
            ParseError::InvalidOperation => "invalid operation"@,
            ParseError::UnbalancedParenthesis => "unbalanced parenthesis"@,
            ParseError::EmptyGroup => "empty parenthesis expression"@,
            ParseError::EmptyInput => "empty input"@,
        }
    }

    /// A short description of the error, for people.
    pub fn message(&self) -> (r: &'static str)
        ensures
            r@ == self.spec_message(),
    {
        match self {
            ParseError::InvalidToken => "invalid token",
            ParseError::InvalidFactor => "invalid factor",
            ParseError::InvalidOperation => "invalid operation",
            ParseError::UnbalancedParenthesis => "unbalanced parenthesis",
            ParseError::EmptyGroup => "empty parenthesis expression",
            ParseError::EmptyInput => "empty input",
        }
    }
}

} // verus!
