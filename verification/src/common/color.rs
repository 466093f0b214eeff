//! The two sides.

use vstd::prelude::*;

verus! {

#[derive(Debug, Clone, Copy, PartialEq, Eq, PartialOrd, Ord, Hash, Structural)]
pub enum Color {
    White,
    Black,
}

impl Color {
    /// The ordinal of the colour: 0 for white, 1 for black.
    pub open spec fn ordinal(self) -> int {
        self as int
    }

    pub open spec fn opposite_spec(self) -> Color {
        match self {
            Color::White => Color::Black,
            Color::Black => Color::White,
        }
    }

    pub fn get_index(self) -> (index: usize)
        ensures
            index == self.ordinal(),
            index < 2,
    {
        self as usize
    }

    #[verifier::when_used_as_spec(opposite_spec)]
    pub fn opposite(self) -> (other: Color)
        ensures
            other == self.opposite_spec(),
    {
        match self {
            Color::White => Color::Black,
            Color::Black => Color::White,
        }
    }
}

} // verus!
