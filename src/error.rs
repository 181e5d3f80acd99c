use vstd::prelude::*;

verus! {

/// What the parser was looking for when it met something else.
#[derive(Debug, Clone, Copy, PartialEq, Eq)]
pub enum Expected {
    /// The start of an expression: a literal, an identifier, `(` or `-`.
    Expression,
    /// An identifier that is not a reserved word.
    Identifier,
    /// The given punctuation character.
    Char(char),
}

/// Why a parse failed. Every position counts characters from the start of the input.
#[derive(Debug, Clone, Copy, PartialEq, Eq)]
pub enum ParseError {
    /// A malformed string literal: a backslash inside it, or no closing quote.
    LexicalError { pos: usize },
    /// The grammar allowed no token found at `pos` (`None`: the input ended).
    UnexpectedToken { expected: Expected, found: Option<char>, pos: usize },
    /// The input ended where a `)` or `}` was still owed.
    UnterminatedGroup { pos: usize },
    /// An integer literal starting at `pos` exceeds the 64-bit signed range.
    NumericOverflow { pos: usize },
    /// Something other than a function definition stands at `pos`.
    TrailingInput { pos: usize },
}

} // verus!
