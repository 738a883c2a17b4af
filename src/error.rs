//! Parse failures: what went wrong and at which byte offset.
use vstd::prelude::*;

verus! {

/// What the parser was looking for when it met an unexpected byte.
#[derive(Debug, Clone, Copy, PartialEq, Eq, Structural)]
pub enum Expected {
    /// The start of a value.
    Value,
    /// The `{` that opens a document that must be an object.
    Object,
    /// A quoted object key.
    Key,
    /// The `:` between a key and its value.
    Colon,
    /// A `,` before the next element, or the container's closing bracket.
    CommaOrClose,
}

#[derive(Debug, Clone, Copy, PartialEq, Eq, Structural)]
pub enum ErrorKind {
    /// No form matched here; `found` is the byte met, `None` at the end of input.
    UnexpectedToken { expected: Expected, found: Option<u8> },
    /// An opening quote, at the error's offset, with no closing quote after it.
    UnterminatedString,
    /// The input ended inside a container opened with `delimiter`; the offset is
    /// the input's length.
    UnterminatedContainer { delimiter: u8 },
    /// A complete value was followed by more than whitespace.
    TrailingContent,
    /// The input held nothing but whitespace.
    EmptyInput,
    /// Containers were nested deeper than the parser allows; the offset is that of
    /// the bracket that would have gone too deep.
    DepthExceeded,
}

/// A failure, with the byte offset at which it was detected.
#[derive(Debug, Clone, Copy, PartialEq, Eq, Structural)]
pub struct ParseError {
    pub offset: usize,
    pub kind: ErrorKind,
}

pub open spec fn error_at(offset: int, kind: ErrorKind) -> ParseError {
    ParseError { offset: offset as usize, kind }
}

impl ParseError {
    pub fn new(offset: usize, kind: ErrorKind) -> (r: ParseError)
        ensures
            r == error_at(offset as int, kind),
    {
        ParseError { offset, kind }
    }
}

} // verus!
