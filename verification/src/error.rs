use vstd::prelude::*;
use crate::position::{PosModel, Position};

verus! {

/// The closed set of ways reading a document can fail. Lexical failures come
/// from the lexer, the rest from the parser; each case can be matched on
/// exhaustively, and the presentation layer owns the wording.
#[derive(Clone, Copy, PartialEq, Eq, Structural, Debug)]
pub enum ErrorKind {
    /// A byte that starts no token; the byte itself is carried along.
    IllegalCharacter(u8),
    /// The input ended inside a string literal, before its closing quote.
    UnterminatedString,
    /// A container did not begin with its opening delimiter.
    ExpectedOpenDelimiter,
    /// A container's element list was not closed by the matching delimiter.
    ExpectedCloseDelimiter,
    /// An object member began with something other than a string key.
    ExpectedKey,
    /// An object member's key was not followed by a colon.
    ExpectedColon,
    /// A value was expected and the token at hand can start none.
    ExpectedValue,
    /// A numeric literal that no in-range number can be read from.
    InvalidNumber,
    /// Tokens remained after the root value was complete.
    UnexpectedTrailingInput,
    /// Containers were nested deeper than the configured limit.
    MaxDepthExceeded,
}

/// A terminal diagnostic: what went wrong and the exact source span it
/// happened at. The first error aborts the whole read; no partial result
/// ever accompanies one.
#[derive(Clone, Copy, PartialEq, Eq, Structural, Debug)]
pub struct Error {
    pub kind: ErrorKind,
    pub pos_start: Position,
    pub pos_end: Position,
}

/// The mathematical shadow of an `Error`.
pub ghost struct ErrModel {
    pub kind: ErrorKind,
    pub start: PosModel,
    pub end: PosModel,
}

impl View for Error {
    type V = ErrModel;

    open spec fn view(&self) -> ErrModel {
        ErrModel { kind: self.kind, start: self.pos_start@, end: self.pos_end@ }
    }
}

} // verus!
