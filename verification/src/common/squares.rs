//! Board squares. A square's ordinal is the position of its bit in a bitboard:
//! a1 is 0, b1 is 1, and so on rank by rank up to h8, which is 63.

use crate::common::error::ParseError;
use crate::strings::chars_of;
use vstd::prelude::*;
use vstd::std_specs::convert::{FromSpecImpl, TryFromSpecImpl};

verus! {

#[derive(Debug, Clone, Copy, PartialEq, Eq, PartialOrd, Ord, Hash, Structural)]
pub enum Square {
    A1, B1, C1, D1, E1, F1, G1, H1,
    A2, B2, C2, D2, E2, F2, G2, H2,
    A3, B3, C3, D3, E3, F3, G3, H3,
    A4, B4, C4, D4, E4, F4, G4, H4,
    A5, B5, C5, D5, E5, F5, G5, H5,
    A6, B6, C6, D6, E6, F6, G6, H6,
    A7, B7, C7, D7, E7, F7, G7, H7,
    A8, B8, C8, D8, E8, F8, G8, H8,
}

/// The file, 0 for a up to 7 for h, that a letter names in either case.
pub open spec fn file_of_letter(c: char) -> Option<int> {
    if 'a' <= c <= 'h' {
        Some(c as int - 'a' as int)
    } else if 'A' <= c <= 'H' {
        Some(c as int - 'A' as int)
    } else {
        None
    }
}

/// The rank, 0 for the first up to 7 for the eighth, that a digit names.
pub open spec fn rank_of_digit(c: char) -> Option<int> {
    if '1' <= c <= '8' {
        Some(c as int - '1' as int)
    } else {
        None
    }
}

/// The lower-case letter of file `file`, for `0 <= file < 8`.
pub open spec fn letter_of_file(file: int) -> char {
    (file + 'a' as int) as char
}

/// The digit of rank `rank`, counted from 0, for `0 <= rank < 8`.
pub open spec fn digit_of_rank(rank: int) -> char {
    (rank + '1' as int) as char
}

impl Square {
    /// Every square, each at the position of its ordinal.
    pub const ALL_SQUARES: [Square; 64] = [
        Square::A1, Square::B1, Square::C1, Square::D1, Square::E1, Square::F1, Square::G1, Square::H1,
        Square::A2, Square::B2, Square::C2, Square::D2, Square::E2, Square::F2, Square::G2, Square::H2,
        Square::A3, Square::B3, Square::C3, Square::D3, Square::E3, Square::F3, Square::G3, Square::H3,
        Square::A4, Square::B4, Square::C4, Square::D4, Square::E4, Square::F4, Square::G4, Square::H4,
        Square::A5, Square::B5, Square::C5, Square::D5, Square::E5, Square::F5, Square::G5, Square::H5,
        Square::A6, Square::B6, Square::C6, Square::D6, Square::E6, Square::F6, Square::G6, Square::H6,
        Square::A7, Square::B7, Square::C7, Square::D7, Square::E7, Square::F7, Square::G7, Square::H7,
        Square::A8, Square::B8, Square::C8, Square::D8, Square::E8, Square::F8, Square::G8, Square::H8,
    ];

    /// The ordinal of the square, from 0 for a1 to 63 for h8.
    pub open spec fn index(self) -> int {
        self as int
    }

    /// The square with ordinal `i`, for `0 <= i < 64`.
    pub open spec fn at(i: int) -> Square {
        Square::ALL_SQUARES[i]
    }

    /// The file of the square, from 0 for a to 7 for h.
    pub open spec fn file(self) -> int {
        self.index() % 8
    }

    /// The rank of the square, from 0 for the first rank to 7 for the eighth.
    pub open spec fn rank(self) -> int {
        self.index() / 8
    }

    /// What a two-character coordinate names: a file letter in either case, then a rank digit.
    pub open spec fn parse_spec(text: Seq<char>) -> Result<Square, ParseError> {
        if text.len() == 2 {
            match (file_of_letter(text[0]), rank_of_digit(text[1])) {
                (Some(file), Some(rank)) => Ok(Square::at(rank * 8 + file)),
                _ => Err(ParseError::InvalidSquareText),
            }
        } else {
            Err(ParseError::InvalidSquareText)
        }
    }

    /// The coordinate of the square: its file letter, then its rank digit.
    pub open spec fn text_spec(self) -> Seq<char> {
        seq![letter_of_file(self.file()), digit_of_rank(self.rank())]
    }

    /// Ordinals stay on the board, and `at` undoes `index`.
    pub proof fn lemma_index_range(self)
        ensures
            0 <= self.index() < 64,
            Square::at(self.index()) == self,
    {
    }

    /// Distinct ordinals name distinct squares: `index` undoes `at`.
    pub proof fn lemma_at_index(i: int)
        requires
            0 <= i < 64,
        ensures
            Square::at(i).index() == i,
    {
    }

    pub fn from_index(index: u8) -> (square: Square)
        requires
            index < 64,
        ensures
            square == Square::at(index as int),
            square.index() == index,
    {
        Square::ALL_SQUARES[index as usize]
    }

    pub fn get_index(self) -> (index: u8)
        ensures
            index == self.index(),
            index < 64,
    {
        self as u8
    }

    /// The rank as players count it, from 1 to 8.
    pub fn get_rank(self) -> (rank: usize)
        ensures
            rank == self.rank() + 1,
            1 <= rank <= 8,
    {
        self as usize / 8 + 1
    }

    /// The file as a lower-case letter, from 'a' to 'h'.
    pub fn get_file(self) -> (file: char)
        ensures
            file == letter_of_file(self.file()),
            'a' <= file <= 'h',
    {
        (self as u8 % 8 + 97u8) as char
    }

    /// Reads a coordinate from its two characters.
    pub fn from_chars(chars: &[char]) -> (result: Result<Square, ParseError>)
        ensures
            result == Square::parse_spec(chars@),
    {
        if chars.len() != 2 {
            return Err(ParseError::InvalidSquareText);
        }
        let letter = chars[0];
        let digit = chars[1];
        let file: u8 = if 'a' <= letter && letter <= 'h' {
            (letter as u32 - 'a' as u32) as u8
        } else if 'A' <= letter && letter <= 'H' {
            (letter as u32 - 'A' as u32) as u8
        } else {
            return Err(ParseError::InvalidSquareText);
        };
        if '1' <= digit && digit <= '8' {
            let rank: u8 = (digit as u32 - '1' as u32) as u8;
            Ok(Square::from_index(rank * 8 + file))
        } else {
            Err(ParseError::InvalidSquareText)
        }
    }

    /// The coordinate of the square, such as "e4".
    pub fn to_text(self) -> (text: String)
        ensures
            text@ == self.text_spec(),
            Square::parse_spec(text@) == Ok::<Square, ParseError>(self),
    {
        let mut text = String::new();
        text.push(self.get_file());
        text.push((self as u8 / 8 + 49u8) as char);
        proof {
            assert(text@ =~= self.text_spec());
            self.lemma_text_round_trip();
        }
        text
    }

    /// Reading the coordinate that `text_spec` writes gives the square back.
    pub proof fn lemma_text_round_trip(self)
        ensures
            Square::parse_spec(self.text_spec()) == Ok::<Square, ParseError>(self),
    {
        self.lemma_index_range();
    }
}

impl From<Square> for u8 {
    fn from(square: Square) -> (index: u8) {
        square as u8
    }
}

impl FromSpecImpl<Square> for u8 {
    open spec fn obeys_from_spec() -> bool {
        true
    }

    open spec fn from_spec(square: Square) -> u8 {
        square as u8
    }
}

impl TryFrom<&str> for Square {
    type Error = ParseError;

    /// Reads a coordinate such as "e4" or "E4".
    fn try_from(value: &str) -> (result: Result<Square, ParseError>) {
        let chars = chars_of(value);
        Square::from_chars(chars.as_slice())
    }
}

impl TryFromSpecImpl<&str> for Square {
    open spec fn obeys_try_from_spec() -> bool {
        true
    }

    open spec fn try_from_spec(value: &str) -> Result<Square, ParseError> {
        Square::parse_spec(value@)
    }
}

} // verus!
