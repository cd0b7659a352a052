use vstd::prelude::*;

verus! {

/// Why a byte buffer is not a bitstream header.
#[derive(Clone, Copy, Debug, PartialEq, Eq, Structural)]
pub enum ParseError {
    /// The buffer ends before the bytes that a step asks for.
    Truncated,
    /// The bytes at a tag position differ from the expected literal.
    TagMismatch,
    /// A text field does not hold well-formed UTF-8.
    InvalidText,
    /// A text field has nothing in front of its final character.
    EmptyField,
}

} // verus!
