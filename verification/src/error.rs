//! The errors that stop a transcoding.

use vstd::prelude::*;

verus! {

/// What went wrong while scanning.
#[derive(Clone, Copy, Debug, PartialEq, Eq, Structural)]
pub enum ErrorKind {
    /// A number or one of `true`, `false`, `null` is spelled wrongly.
    MalformedLiteral,
    /// The input ends inside a string.
    UnterminatedString,
    /// A backslash in a string is followed by something that is no escape.
    InvalidEscape,
    /// A byte stands where the grammar allows none like it.
    UnexpectedCharacter,
    /// The input ends where a value, or the rest of one, is still due.
    UnexpectedEnd,
    /// Something other than whitespace follows the top-level value.
    TrailingGarbage,
}

/// Why a transcoding stopped: the kind of the error and the offset of the byte at which it was
/// noticed (the input's length where the input ended too early).
#[derive(Clone, Copy, Debug, PartialEq, Eq, Structural)]
pub struct TranscodeError {
    pub kind: ErrorKind,
    pub offset: usize,
}

impl View for TranscodeError {
    type V = (ErrorKind, int);

    open spec fn view(&self) -> (ErrorKind, int) {
        (self.kind, self.offset as int)
    }
}

} // verus!
