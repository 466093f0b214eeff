//! A move: which piece goes from where to where, and whether it takes something.

use crate::common::pieces::Piece;
use crate::common::squares::Square;
use vstd::prelude::*;

verus! {

#[derive(Debug, Clone, Copy, PartialEq, Eq, PartialOrd, Ord, Hash)]
pub struct Move {
    pub from: Square,
    pub to: Square,
    pub promotion: Option<Piece>,
    pub piece: Piece,
    pub is_capture: bool,
}

impl Move {
    pub fn new(
        from: Square,
        to: Square,
        promotion: Option<Piece>,
        piece: Piece,
        is_capture: bool,
    ) -> (mv: Move)
        ensures
            mv == (Move { from, to, promotion, piece, is_capture }),
    {
        Move { from, to, promotion, piece, is_capture }
    }

    /// A move that takes nothing and promotes to nothing.
    pub fn quiet(from: Square, to: Square, piece: Piece) -> (mv: Move)
        ensures
            mv == (Move { from, to, promotion: None, piece, is_capture: false }),
    {
        Move { from, to, promotion: None, piece, is_capture: false }
    }

    /// A move that takes what stands on its destination.
    pub fn capture(from: Square, to: Square, piece: Piece) -> (mv: Move)
        ensures
            mv == (Move { from, to, promotion: None, piece, is_capture: true }),
    {
        Move { from, to, promotion: None, piece, is_capture: true }
    }

    pub fn get_from(&self) -> (from: Square)
        ensures
            from == self.from,
    {
        self.from
    }

    pub fn get_to(&self) -> (to: Square)
        ensures
            to == self.to,
    {
        self.to
    }

    pub fn get_promotion(&self) -> (promotion: Option<Piece>)
        ensures
            promotion == self.promotion,
    {
        self.promotion
    }

    pub fn get_piece(&self) -> (piece: Piece)
        ensures
            piece == self.piece,
    {
        self.piece
    }

    pub fn is_capture(&self) -> (is_capture: bool)
        ensures
            is_capture == self.is_capture,
    {
        self.is_capture
    }
}

} // verus!
