//! What can be wrong with text handed to the library.

use vstd::prelude::*;

verus! {

#[derive(Debug, Clone, Copy, PartialEq, Eq, Hash, Structural)]
pub enum ParseError {
    /// A coordinate is not a file letter followed by a rank digit.
    InvalidSquareText,
    /// A character names none of the twelve pieces.
    InvalidPieceChar,
    /// A position text does not have the shape of a position.
    InvalidPositionText,
}

} // verus!
