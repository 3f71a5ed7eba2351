//! Errors reported by the parsers and the layout-tree builder.
use vstd::prelude::*;

verus! {

/// What a parser was looking for when it met another character.
#[derive(Clone, Copy, PartialEq, Eq, Structural, Debug)]
pub enum Expected {
    /// This exact character.
    Char(char),
    /// The first character of a name or identifier.
    Name,
    /// An ASCII digit.
    Digit,
    /// The end of the input.
    EndOfInput,
}

/// A parse failure. Positions count characters from the start of the input.
#[derive(Clone, Copy, PartialEq, Eq, Structural, Debug)]
pub enum ParseError {
    UnexpectedEof,
    UnexpectedChar { expected: Expected, found: char, position: usize },
    UnterminatedAttribute,
    InvalidNumericLiteral,
    InvalidColorComponent,
    InvalidSelector,
    /// Elements nested deeper than the parser allows.
    NestingTooDeep,
}

/// A failure of layout-tree construction.
#[derive(Clone, Copy, PartialEq, Eq, Structural, Debug)]
pub enum LayoutError {
    /// The root of the styled tree has `display: none`.
    NoVisualRoot,
}

/// A successful parse of `v` that ends at position `p`.
pub open spec fn ok_at<T>(v: T, p: int) -> Result<(T, int), ParseError> {
    Ok((v, p))
}

/// A failed parse.
pub open spec fn fails<T>(e: ParseError) -> Result<(T, int), ParseError> {
    Err(e)
}

} // verus!
