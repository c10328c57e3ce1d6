use vstd::prelude::*;

verus! {

/// Why a text was rejected.
#[derive(Debug, Clone, Copy, PartialEq, Eq, Structural)]
pub enum ErrorKind {
    /// A character stands where the grammar does not allow it.
    UnexpectedChar,
    /// The text ended while a value, an escape or a container was still open.
    UnexpectedEnd,
    /// The digits of a `*` or `**` escape are not hexadecimal, or do not name
    /// a Unicode scalar value.
    InvalidEscape,
    /// A bare literal is neither `null`, `true`, `false` nor a number.
    InvalidValue,
    /// A complete value was read and characters are left over.
    TrailingInput,
}

/// The error of [`deserialize`](crate::deserialize): the first violation met
/// while reading the text from left to right.
#[derive(Debug, Clone, Copy, PartialEq, Eq, Structural)]
pub struct DeserializeError {
    pub kind: ErrorKind,
}

impl DeserializeError {
    pub fn new(kind: ErrorKind) -> (e: Self)
        ensures
            e.kind == kind,
    {
        DeserializeError { kind }
    }
}

} // verus!
