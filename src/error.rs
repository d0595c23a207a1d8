use vstd::prelude::*;
use crate::lexer::Tokentype;

verus! {

/// What the parser wanted where it failed.
#[derive(Clone, Copy, Debug, PartialEq, Eq)]
pub enum Expected {
    /// A token of this kind.
    Token(Tokentype),
    /// The start of an operand: a number, a name or `(`.
    Primary,
}

/// Errors that end a compilation.
#[derive(Clone, Debug, PartialEq, Eq)]
pub enum CompileError {
    /// A character that starts no token, at the given character position.
    LexError(usize),
    /// A token that the grammar does not allow: its position, what was
    /// wanted there, and the text of the token found (`None` past the end).
    ParseError { at: usize, expected: Expected, found: Option<String> },
    /// A number literal, at the given token position, that is not a string of
    /// decimal digits with a value that fits in an `i32`.
    InvalidNumber(usize),
    /// An assignment to a name that was never declared.
    UndeclaredVariable(String),
    /// A second declaration of a name.
    DuplicateDeclaration(String),
    /// A binary operator that has no instruction (`=` inside an expression).
    UnsupportedOperator,
}

} // verus!
