//! The twelve piece identities. Their order is fixed: pawn, knight, bishop, rook, queen,
//! king, each white first and then black, so that an even ordinal is a white piece.

use crate::common::color::Color;
use crate::common::error::ParseError;
use crate::strings::chars_of;
use vstd::prelude::*;
use vstd::std_specs::convert::{FromSpecImpl, TryFromSpecImpl};

verus! {

#[derive(Debug, Clone, Copy, PartialEq, Eq, PartialOrd, Ord, Hash, Structural)]
pub enum Piece {
    WhitePawn,
    BlackPawn,
    WhiteKnight,
    BlackKnight,
    WhiteBishop,
    BlackBishop,
    WhiteRook,
    BlackRook,
    WhiteQueen,
    BlackQueen,
    WhiteKing,
    BlackKing,
}

impl Piece {
    /// Every piece identity, each at the position of its ordinal.
    pub const ALL_PIECES: [Piece; 12] = [
        Piece::WhitePawn,
        Piece::BlackPawn,
        Piece::WhiteKnight,
        Piece::BlackKnight,
        Piece::WhiteBishop,
        Piece::BlackBishop,
        Piece::WhiteRook,
        Piece::BlackRook,
        Piece::WhiteQueen,
        Piece::BlackQueen,
        Piece::WhiteKing,
        Piece::BlackKing,
    ];

    /// The ordinal of the piece, from 0 for the white pawn to 11 for the black king.
    pub open spec fn ordinal(self) -> int {
        self as int
    }

    /// The piece with ordinal `i`, for `0 <= i < 12`.
    pub open spec fn at(i: int) -> Piece {
        Piece::ALL_PIECES[i]
    }

    /// The colour of the piece: white exactly when its ordinal is even.
    pub open spec fn color(self) -> Color {
        if self.ordinal() % 2 == 0 {
            Color::White
        } else {
            Color::Black
        }
    }

    /// The kind of the piece, from 0 for a pawn to 5 for a king, whatever its colour.
    pub open spec fn kind(self) -> int {
        self.ordinal() / 2
    }

    /// The letter that stands for the piece: upper case for white, lower case for black.
    pub open spec fn letter(self) -> char {
        match self {
            Piece::WhitePawn => 'P',
            Piece::BlackPawn => 'p',
            Piece::WhiteKnight => 'N',
            Piece::BlackKnight => 'n',
            Piece::WhiteBishop => 'B',
            Piece::BlackBishop => 'b',
            Piece::WhiteRook => 'R',
            Piece::BlackRook => 'r',
            Piece::WhiteQueen => 'Q',
            Piece::BlackQueen => 'q',
            Piece::WhiteKing => 'K',
            Piece::BlackKing => 'k',
        }
    }

    /// The piece that a letter stands for, if any.
    pub open spec fn of_letter(c: char) -> Option<Piece> {
        match c {
            'P' => Some(Piece::WhitePawn),
            'p' => Some(Piece::BlackPawn),
            'N' => Some(Piece::WhiteKnight),
            'n' => Some(Piece::BlackKnight),
            'B' => Some(Piece::WhiteBishop),
            'b' => Some(Piece::BlackBishop),
            'R' => Some(Piece::WhiteRook),
            'r' => Some(Piece::BlackRook),
            'Q' => Some(Piece::WhiteQueen),
            'q' => Some(Piece::BlackQueen),
            'K' => Some(Piece::WhiteKing),
            'k' => Some(Piece::BlackKing),
            _ => None,
        }
    }

    /// Ordinals run from 0 to 11, and `at` undoes `ordinal`.
    pub proof fn lemma_ordinal_range(self)
        ensures
            0 <= self.ordinal() < 12,
            Piece::at(self.ordinal()) == self,
    {
    }

    /// `ordinal` undoes `at`.
    pub proof fn lemma_at_ordinal(i: int)
        requires
            0 <= i < 12,
        ensures
            Piece::at(i).ordinal() == i,
    {
    }

    /// A piece is read back from its own letter, and a letter that names a piece is that
    /// piece's letter.
    pub proof fn lemma_letter_inverse(self, c: char)
        ensures
            Piece::of_letter(self.letter()) == Some(self),
            Piece::of_letter(c) == Some(self) ==> self.letter() == c,
            !('1' <= self.letter() <= '8'),
            self.letter() != '/',
            self.letter() != ' ',
    {
    }

    pub fn get_index(self) -> (index: usize)
        ensures
            index == self.ordinal(),
            index < 12,
    {
        self as usize
    }

    pub fn from_index(index: usize) -> (piece: Piece)
        requires
            index < 12,
        ensures
            piece == Piece::at(index as int),
            piece.ordinal() == index,
    {
        Piece::ALL_PIECES[index]
    }

    pub fn get_color(self) -> (color: Color)
        ensures
            color == self.color(),
    {
        if self as usize % 2 == 0 {
            Color::White
        } else {
            Color::Black
        }
    }

    /// The piece of the same kind and the other colour.
    pub fn get_opposite(self) -> (piece: Piece)
        ensures
            piece.kind() == self.kind(),
            piece.color() == self.color().opposite_spec(),
    {
        match self {
            Piece::WhitePawn => Piece::BlackPawn,
            Piece::BlackPawn => Piece::WhitePawn,
            Piece::WhiteKnight => Piece::BlackKnight,
            Piece::BlackKnight => Piece::WhiteKnight,
            Piece::WhiteBishop => Piece::BlackBishop,
            Piece::BlackBishop => Piece::WhiteBishop,
            Piece::WhiteRook => Piece::BlackRook,
            Piece::BlackRook => Piece::WhiteRook,
            Piece::WhiteQueen => Piece::BlackQueen,
            Piece::BlackQueen => Piece::WhiteQueen,
            Piece::WhiteKing => Piece::BlackKing,
            Piece::BlackKing => Piece::WhiteKing,
        }
    }

    /// The figurine that draws the piece.
    pub fn get_symbol(self) -> (symbol: char)
        ensures
            symbol as int == 0x2654 + (5 - self.kind()) + 6 * (self.ordinal() % 2),
    {
        match self {
            Piece::WhitePawn => '\u{2659}',
            Piece::BlackPawn => '\u{265F}',
            Piece::WhiteKnight => '\u{2658}',
            Piece::BlackKnight => '\u{265E}',
            Piece::WhiteBishop => '\u{2657}',
            Piece::BlackBishop => '\u{265D}',
            Piece::WhiteRook => '\u{2656}',
            Piece::BlackRook => '\u{265C}',
            Piece::WhiteQueen => '\u{2655}',
            Piece::BlackQueen => '\u{265B}',
            Piece::WhiteKing => '\u{2654}',
            Piece::BlackKing => '\u{265A}',
        }
    }
}

impl TryFrom<char> for Piece {
    type Error = ParseError;

    fn try_from(value: char) -> (result: Result<Piece, ParseError>) {
        match value {
            'P' => Ok(Piece::WhitePawn),
            'p' => Ok(Piece::BlackPawn),
            'N' => Ok(Piece::WhiteKnight),
            'n' => Ok(Piece::BlackKnight),
            'B' => Ok(Piece::WhiteBishop),
            'b' => Ok(Piece::BlackBishop),
            'R' => Ok(Piece::WhiteRook),
            'r' => Ok(Piece::BlackRook),
            'Q' => Ok(Piece::WhiteQueen),
            'q' => Ok(Piece::BlackQueen),
            'K' => Ok(Piece::WhiteKing),
            'k' => Ok(Piece::BlackKing),
            _ => Err(ParseError::InvalidPieceChar),
        }
    }
}

impl TryFromSpecImpl<char> for Piece {
    open spec fn obeys_try_from_spec() -> bool {
        true
    }

    open spec fn try_from_spec(value: char) -> Result<Piece, ParseError> {
        match Piece::of_letter(value) {
            Some(piece) => Ok(piece),
            None => Err(ParseError::InvalidPieceChar),
        }
    }
}

impl From<Piece> for char {
    fn from(val: Piece) -> (letter: char) {
        match val {
            Piece::WhitePawn => 'P',
            Piece::BlackPawn => 'p',
            Piece::WhiteKnight => 'N',
            Piece::BlackKnight => 'n',
            Piece::WhiteBishop => 'B',
            Piece::BlackBishop => 'b',
            Piece::WhiteRook => 'R',
            Piece::BlackRook => 'r',
            Piece::WhiteQueen => 'Q',
            Piece::BlackQueen => 'q',
            Piece::WhiteKing => 'K',
            Piece::BlackKing => 'k',
        }
    }
}

impl FromSpecImpl<Piece> for char {
    open spec fn obeys_from_spec() -> bool {
        true
    }

    open spec fn from_spec(val: Piece) -> char {
        val.letter()
    }
}

/// What one character of a diagram stands for: a piece, an empty square for a dot, or
/// nothing at all.
pub open spec fn diagram_cell(c: char) -> Option<Option<Piece>> {
    match Piece::of_letter(c) {
        Some(piece) => Some(Some(piece)),
        None => if c == '.' {
            Some(None)
        } else {
            None
        },
    }
}

/// Reads a diagram of pieces: each piece letter is a piece, each dot an empty square, and
/// every other character (spaces, line breaks) is passed over.
pub fn parse(value: &str) -> (cells: Vec<Option<Piece>>)
    ensures
        cells@ == value@.filter_map(|c: char| diagram_cell(c)),
{
    let chars = chars_of(value);
    let ghost cell = |c: char| diagram_cell(c);
    let mut cells: Vec<Option<Piece>> = Vec::new();
    let mut i: usize = 0;
    while i < chars.len()
        invariant
            i <= chars.len(),
            cell == (|c: char| diagram_cell(c)),
            cells@ == chars@.take(i as int).filter_map(cell),
        decreases chars.len() - i,
    {
        let c = chars[i];
        proof {
            chars@.lemma_filter_map_take_succ(cell, i as int);
        }
        match Piece::try_from(c) {
            Ok(piece) => {
                cells.push(Some(piece));
            },
            Err(_) => {
                if c == '.' {
                    cells.push(None);
                }
            },
        }
        i += 1;
    }
    assert(chars@.take(chars.len() as int) == chars@);
    cells
}

} // verus!
