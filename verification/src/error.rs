//! The ways in which an operation of this crate rejects its input.

use vstd::prelude::*;

verus! {

/// Why an operation refused its input.
#[derive(Clone, Copy, Debug, PartialEq, Eq, Structural)]
pub enum PolyominoError {
    /// A coordinate collection without any cell was given where a shape is needed.
    InvalidShape,
    /// A shape size of zero was asked for.
    InvalidSize,
    /// A board was asked for whose width or height is zero.
    InvalidDimensions,
}

impl PolyominoError {
    /// A short description of the error, for callers that print it.
    pub fn message(&self) -> (text: &'static str)
        ensures
            text@ == match *self {
                PolyominoError::InvalidShape => "a shape needs at least one cell"@,
                PolyominoError::InvalidSize => "the size of a shape must be at least one"@,
                PolyominoError::InvalidDimensions => "a board needs a positive width and height"@,
            },
    {
        match self {
            PolyominoError::InvalidShape => "a shape needs at least one cell",
            PolyominoError::InvalidSize => "the size of a shape must be at least one",
            PolyominoError::InvalidDimensions => "a board needs a positive width and height",
        }
    }
}

} // verus!
