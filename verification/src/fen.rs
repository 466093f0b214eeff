//! Position text: the six fields that write a position down. The first field lists the
//! eight ranks from the eighth down, each from file a to file h, a letter for a piece and
//! a digit for a run of empty squares; then come the side to move, the castling rights,
//! the square of a capture in passing, and the two move counters.

use crate::common::color::Color;
use crate::common::error::ParseError;
use crate::common::pieces::Piece;
use crate::common::squares::Square;
use crate::strings::chars_of;
use vstd::prelude::*;

verus! {

/// The text of the position from which a game starts.
pub const START_POSITION: &'static str = "rnbqkbnr/pppppppp/8/8/8/8/PPPPPPPP/RNBQKBNR w KQkq - 0 1";

/// What a position text says.
#[derive(Debug, Clone, PartialEq, Eq)]
pub struct Position {
    /// What each square holds: 64 entries, from the eighth rank down, each rank from file
    /// a to file h.
    pub piece_placement: Vec<Option<Piece>>,
    pub side_to_move: Color,
    /// The kings and queens whose side may still castle on their wing.
    pub castling_ability: Vec<Piece>,
    pub en_passant_target_square: Option<Square>,
    pub half_move_clock: u32,
    pub full_move_counter: u32,
}

/// What a position text says, as plain values.
pub struct PositionView {
    pub piece_placement: Seq<Option<Piece>>,
    pub side_to_move: Color,
    pub castling_ability: Seq<Piece>,
    pub en_passant_target_square: Option<Square>,
    pub half_move_clock: u32,
    pub full_move_counter: u32,
}

impl View for Position {
    type V = PositionView;

    open spec fn view(&self) -> PositionView {
        PositionView {
            piece_placement: self.piece_placement@,
            side_to_move: self.side_to_move,
            castling_ability: self.castling_ability@,
            en_passant_target_square: self.en_passant_target_square,
            half_move_clock: self.half_move_clock,
            full_move_counter: self.full_move_counter,
        }
    }
}

/// The parts of `text` between the occurrences of `separator`. There is always one part
/// more than there are separators.
pub open spec fn split(text: Seq<char>, separator: char) -> Seq<Seq<char>>
    decreases text.len(),
{
    if text.len() == 0 {
        seq![Seq::empty()]
    } else {
        let parts = split(text.drop_last(), separator);
        if text.last() == separator {
            parts.push(Seq::empty())
        } else {
            parts.drop_last().push(parts.last().push(text.last()))
        }
    }
}

/// The texts that a vector of character vectors holds.
pub open spec fn texts(parts: Seq<Vec<char>>) -> Seq<Seq<char>> {
    parts.map_values(|part: Vec<char>| part@)
}

/// The squares that the text of one rank lists, as far as every character is a piece
/// letter or a digit from 1 to 8.
pub open spec fn rank_cells(text: Seq<char>) -> Result<Seq<Option<Piece>>, ParseError>
    decreases text.len(),
{
    if text.len() == 0 {
        Ok(Seq::empty())
    } else {
        match rank_cells(text.drop_last()) {
            Err(e) => Err(e),
            Ok(cells) => {
                let c = text.last();
                if '1' <= c <= '8' {
                    Ok(cells + Seq::new((c as int - '0' as int) as nat, |k: int| None))
                } else {
                    match Piece::of_letter(c) {
                        Some(piece) => Ok(cells.push(Some(piece))),
                        None => Err(ParseError::InvalidPieceChar),
                    }
                }
            },
        }
    }
}

/// The eight squares of a rank, as its text lists them.
pub open spec fn rank_of_text(text: Seq<char>) -> Result<Seq<Option<Piece>>, ParseError> {
    match rank_cells(text) {
        Err(e) => Err(e),
        Ok(cells) => if cells.len() == 8 {
            Ok(cells)
        } else {
            Err(ParseError::InvalidPositionText)
        },
    }
}

/// The squares of the ranks `ranks`, one after the other. The first rank in the order of
/// the text that is wrong decides the error.
pub open spec fn placement_of_ranks(ranks: Seq<Seq<char>>) -> Result<
    Seq<Option<Piece>>,
    ParseError,
>
    decreases ranks.len(),
{
    if ranks.len() == 0 {
        Ok(Seq::empty())
    } else {
        match placement_of_ranks(ranks.drop_last()) {
            Err(e) => Err(e),
            Ok(cells) => match rank_of_text(ranks.last()) {
                Err(e) => Err(e),
                Ok(rank) => Ok(cells + rank),
            },
        }
    }
}

/// The 64 squares that a placement field lists: eight ranks with a slash between them.
pub open spec fn placement_of_text(text: Seq<char>) -> Result<Seq<Option<Piece>>, ParseError> {
    let ranks = split(text, '/');
    if ranks.len() != 8 {
        Err(ParseError::InvalidPositionText)
    } else {
        placement_of_ranks(ranks)
    }
}

/// The side that the second field names: `w` or `b`.
pub open spec fn side_of_text(text: Seq<char>) -> Result<Color, ParseError> {
    if text == seq!['w'] {
        Ok(Color::White)
    } else if text == seq!['b'] {
        Ok(Color::Black)
    } else {
        Err(ParseError::InvalidPositionText)
    }
}

/// Whether `piece` can stand in a list of castling rights: a king or a queen.
pub open spec fn is_castling_piece(piece: Piece) -> bool {
    piece.kind() >= 4
}

/// The castling rights that the letters of `text` name, where each is one of `KQkq`.
pub open spec fn castling_pieces(text: Seq<char>) -> Result<Seq<Piece>, ParseError>
    decreases text.len(),
{
    if text.len() == 0 {
        Ok(Seq::empty())
    } else {
        match castling_pieces(text.drop_last()) {
            Err(e) => Err(e),
            Ok(pieces) => match Piece::of_letter(text.last()) {
                Some(piece) => if is_castling_piece(piece) {
                    Ok(pieces.push(piece))
                } else {
                    Err(ParseError::InvalidPositionText)
                },
                None => Err(ParseError::InvalidPositionText),
            },
        }
    }
}

/// The castling rights that the third field names: a dash for none, else one letter of
/// `KQkq` or more.
pub open spec fn castling_of_text(text: Seq<char>) -> Result<Seq<Piece>, ParseError> {
    if text == seq!['-'] {
        Ok(Seq::empty())
    } else if text.len() == 0 {
        Err(ParseError::InvalidPositionText)
    } else {
        castling_pieces(text)
    }
}

/// The square that the fourth field names: a dash for none, else a coordinate.
pub open spec fn en_passant_of_text(text: Seq<char>) -> Result<Option<Square>, ParseError> {
    if text == seq!['-'] {
        Ok(None)
    } else {
        match Square::parse_spec(text) {
            Ok(square) => Ok(Some(square)),
            Err(e) => Err(e),
        }
    }
}

/// The number that decimal digits write, if `text` holds nothing but digits.
pub open spec fn digits_value(text: Seq<char>) -> Option<int>
    decreases text.len(),
{
    if text.len() == 0 {
        Some(0)
    } else {
        match digits_value(text.drop_last()) {
            None => None,
            Some(value) => if '0' <= text.last() <= '9' {
                Some(value * 10 + (text.last() as int - '0' as int))
            } else {
                None
            },
        }
    }
}

/// The counter that a field writes: one decimal digit or more, and no more than 32 bits
/// hold.
pub open spec fn counter_of_text(text: Seq<char>) -> Result<u32, ParseError> {
    match digits_value(text) {
        Some(value) => if text.len() > 0 && value <= u32::MAX {
            Ok(value as u32)
        } else {
            Err(ParseError::InvalidPositionText)
        },
        None => Err(ParseError::InvalidPositionText),
    }
}

/// What a position text says. The text has six fields with one space between them; the
/// first field that is wrong decides the error.
pub open spec fn position_of_text(text: Seq<char>) -> Result<PositionView, ParseError> {
    let fields = split(text, ' ');
    if fields.len() != 6 {
        Err(ParseError::InvalidPositionText)
    } else {
        match placement_of_text(fields[0]) {
            Err(e) => Err(e),
            Ok(piece_placement) => match side_of_text(fields[1]) {
                Err(e) => Err(e),
                Ok(side_to_move) => match castling_of_text(fields[2]) {
                    Err(e) => Err(e),
                    Ok(castling_ability) => match en_passant_of_text(fields[3]) {
                        Err(e) => Err(e),
                        Ok(en_passant_target_square) => match counter_of_text(fields[4]) {
                            Err(e) => Err(e),
                            Ok(half_move_clock) => match counter_of_text(fields[5]) {
                                Err(e) => Err(e),
                                Ok(full_move_counter) => Ok(
                                    PositionView {
                                        piece_placement,
                                        side_to_move,
                                        castling_ability,
                                        en_passant_target_square,
                                        half_move_clock,
                                        full_move_counter,
                                    },
                                ),
                            },
                        },
                    },
                },
            },
        }
    }
}

/// Cuts `text` at every `separator`.
pub fn split_at(text: &[char], separator: char) -> (parts: Vec<Vec<char>>)
    ensures
        texts(parts@) == split(text@, separator),
        parts@.len() >= 1,
{
    let mut parts: Vec<Vec<char>> = Vec::new();
    let mut current: Vec<char> = Vec::new();
    let mut i: usize = 0;
    assert(text@.take(0) =~= Seq::<char>::empty());
    assert(texts(parts@).push(current@) =~= split(text@.take(0), separator));
    while i < text.len()
        invariant
            i <= text@.len(),
            texts(parts@).push(current@) == split(text@.take(i as int), separator),
        decreases text@.len() - i,
    {
        let c = text[i];
        proof {
            let prefix = text@.take(i as int + 1);
            assert(prefix.drop_last() =~= text@.take(i as int));
            assert(prefix.last() == c);
        }
        if c == separator {
            let ghost before = texts(parts@);
            parts.push(current);
            current = Vec::new();
            proof {
                assert(texts(parts@) =~= before.push(parts@.last()@));
                assert(texts(parts@).push(current@) =~= split(
                    text@.take(i as int + 1),
                    separator,
                ));
            }
        } else {
            let ghost before = current@;
            current.push(c);
            proof {
                let old_parts = texts(parts@).push(before);
                assert(old_parts.drop_last() =~= texts(parts@));
                assert(texts(parts@).push(current@) =~= split(
                    text@.take(i as int + 1),
                    separator,
                ));
            }
        }
        i += 1;
    }
    proof {
        assert(text@.take(text@.len() as int) =~= text@);
    }
    let ghost before = texts(parts@);
    parts.push(current);
    proof {
        assert(texts(parts@) =~= before.push(parts@.last()@));
    }
    parts
}

/// Reads the text of one rank.
fn parse_rank(text: &[char]) -> (result: Result<Vec<Option<Piece>>, ParseError>)
    ensures
        match result {
            Ok(cells) => rank_of_text(text@) == Ok::<Seq<Option<Piece>>, ParseError>(cells@),
            Err(e) => rank_of_text(text@) == Err::<Seq<Option<Piece>>, ParseError>(e),
        },
{
    let mut cells: Vec<Option<Piece>> = Vec::new();
    let mut failure: Option<ParseError> = None;
    let mut i: usize = 0;
    assert(text@.take(0) =~= Seq::<char>::empty());
    while i < text.len()
        invariant
            i <= text@.len(),
            match failure {
                None => rank_cells(text@.take(i as int)) == Ok::<Seq<Option<Piece>>, ParseError>(
                    cells@,
                ),
                Some(e) => rank_cells(text@.take(i as int)) == Err::<Seq<Option<Piece>>, ParseError>(
                    e,
                ),
            },
        decreases text@.len() - i,
    {
        let c = text[i];
        proof {
            let prefix = text@.take(i as int + 1);
            assert(prefix.drop_last() =~= text@.take(i as int));
            assert(prefix.last() == c);
        }
        if failure.is_none() {
            if '1' <= c && c <= '8' {
                let run: u32 = c as u32 - '0' as u32;
                let ghost before = cells@;
                let mut k: u32 = 0;
                while k < run
                    invariant
                        k <= run,
                        cells@ == before + Seq::new(k as nat, |j: int| None::<Piece>),
                    decreases run - k,
                {
                    cells.push(None);
                    k += 1;
                    assert(cells@ =~= before + Seq::new(k as nat, |j: int| None::<Piece>));
                }
            } else {
                match Piece::try_from(c) {
                    Ok(piece) => {
                        cells.push(Some(piece));
                    },
                    Err(e) => {
                        failure = Some(e);
                    },
                }
            }
        }
        i += 1;
    }
    proof {
        assert(text@.take(text@.len() as int) =~= text@);
    }
    match failure {
        Some(e) => Err(e),
        None => if cells.len() == 8 {
            Ok(cells)
        } else {
            Err(ParseError::InvalidPositionText)
        },
    }
}

/// Reads the placement field.
fn parse_placement(text: &[char]) -> (result: Result<Vec<Option<Piece>>, ParseError>)
    ensures
        match result {
            Ok(cells) => placement_of_text(text@) == Ok::<Seq<Option<Piece>>, ParseError>(cells@),
            Err(e) => placement_of_text(text@) == Err::<Seq<Option<Piece>>, ParseError>(e),
        },
{
    let ranks = split_at(text, '/');
    if ranks.len() != 8 {
        return Err(ParseError::InvalidPositionText);
    }
    let mut cells: Vec<Option<Piece>> = Vec::new();
    let mut failure: Option<ParseError> = None;
    let mut r: usize = 0;
    assert(texts(ranks@).take(0) =~= Seq::<Seq<char>>::empty());
    while r < 8
        invariant
            r <= 8,
            ranks@.len() == 8,
            match failure {
                None => placement_of_ranks(texts(ranks@).take(r as int)) == Ok::<
                    Seq<Option<Piece>>,
                    ParseError,
                >(cells@),
                Some(e) => placement_of_ranks(texts(ranks@).take(r as int)) == Err::<
                    Seq<Option<Piece>>,
                    ParseError,
                >(e),
            },
        decreases 8 - r,
    {
        proof {
            let prefix = texts(ranks@).take(r as int + 1);
            assert(prefix.drop_last() =~= texts(ranks@).take(r as int));
            assert(prefix.last() == ranks@[r as int]@);
        }
        if failure.is_none() {
            match parse_rank(ranks[r].as_slice()) {
                Ok(rank) => {
                    let mut rank = rank;
                    cells.append(&mut rank);
                },
                Err(e) => {
                    failure = Some(e);
                },
            }
        }
        r += 1;
    }
    proof {
        assert(texts(ranks@).take(8) =~= texts(ranks@));
    }
    match failure {
        Some(e) => Err(e),
        None => Ok(cells),
    }
}

/// Reads the field of the side to move.
fn parse_side(text: &[char]) -> (result: Result<Color, ParseError>)
    ensures
        result == side_of_text(text@),
{
    if text.len() == 1 && text[0] == 'w' {
        assert(text@ =~= seq!['w']);
        Ok(Color::White)
    } else if text.len() == 1 && text[0] == 'b' {
        assert(text@ =~= seq!['b']);
        Ok(Color::Black)
    } else {
        assert(seq!['w'][0] == 'w' && seq!['b'][0] == 'b');
        Err(ParseError::InvalidPositionText)
    }
}

/// Reads the field of the castling rights.
fn parse_castling(text: &[char]) -> (result: Result<Vec<Piece>, ParseError>)
    ensures
        match result {
            Ok(pieces) => castling_of_text(text@) == Ok::<Seq<Piece>, ParseError>(pieces@),
            Err(e) => castling_of_text(text@) == Err::<Seq<Piece>, ParseError>(e),
        },
{
    let mut pieces: Vec<Piece> = Vec::new();
    if text.len() == 1 && text[0] == '-' {
        assert(text@ =~= seq!['-']);
        return Ok(pieces);
    }
    assert(seq!['-'][0] == '-');
    if text.len() == 0 {
        return Err(ParseError::InvalidPositionText);
    }
    let mut failed = false;
    let mut i: usize = 0;
    assert(text@.take(0) =~= Seq::<char>::empty());
    while i < text.len()
        invariant
            i <= text@.len(),
            failed ==> castling_pieces(text@.take(i as int)) == Err::<Seq<Piece>, ParseError>(
                ParseError::InvalidPositionText,
            ),
            !failed ==> castling_pieces(text@.take(i as int)) == Ok::<Seq<Piece>, ParseError>(
                pieces@,
            ),
        decreases text@.len() - i,
    {
        let c = text[i];
        proof {
            let prefix = text@.take(i as int + 1);
            assert(prefix.drop_last() =~= text@.take(i as int));
            assert(prefix.last() == c);
        }
        if !failed {
            match Piece::try_from(c) {
                Ok(piece) => {
                    if piece.get_index() >= 8 {
                        pieces.push(piece);
                    } else {
                        failed = true;
                    }
                },
                Err(_) => {
                    failed = true;
                },
            }
        }
        i += 1;
    }
    proof {
        assert(text@.take(text@.len() as int) =~= text@);
    }
    if failed {
        Err(ParseError::InvalidPositionText)
    } else {
        Ok(pieces)
    }
}

/// Reads the field of the square of a capture in passing.
fn parse_en_passant(text: &[char]) -> (result: Result<Option<Square>, ParseError>)
    ensures
        result == en_passant_of_text(text@),
{
    if text.len() == 1 && text[0] == '-' {
        assert(text@ =~= seq!['-']);
        return Ok(None);
    }
    assert(seq!['-'][0] == '-');
    match Square::from_chars(text) {
        Ok(square) => Ok(Some(square)),
        Err(e) => Err(e),
    }
}

/// Reads a counter field.
fn parse_counter(text: &[char]) -> (result: Result<u32, ParseError>)
    ensures
        result == counter_of_text(text@),
{
    let mut value: u32 = 0;
    let mut valid = true;
    let mut large = false;
    let mut i: usize = 0;
    assert(text@.take(0) =~= Seq::<char>::empty());
    while i < text.len()
        invariant
            i <= text@.len(),
            match digits_value(text@.take(i as int)) {
                None => !valid,
                Some(v) => valid && 0 <= v && (large ==> v > u32::MAX) && (!large ==> v == value),
            },
        decreases text@.len() - i,
    {
        let c = text[i];
        proof {
            let prefix = text@.take(i as int + 1);
            assert(prefix.drop_last() =~= text@.take(i as int));
            assert(prefix.last() == c);
        }
        if valid {
            if '0' <= c && c <= '9' {
                if !large {
                    let digit: u64 = (c as u32 - '0' as u32) as u64;
                    let next: u64 = value as u64 * 10 + digit;
                    if next > u32::MAX as u64 {
                        large = true;
                    } else {
                        value = next as u32;
                    }
                }
            } else {
                valid = false;
            }
        }
        i += 1;
    }
    proof {
        assert(text@.take(text@.len() as int) =~= text@);
    }
    if valid && !large && text.len() > 0 {
        Ok(value)
    } else {
        Err(ParseError::InvalidPositionText)
    }
}

/// Reads a position text.
pub fn parse(fen: &str) -> (result: Result<Position, ParseError>)
    ensures
        match result {
            Ok(position) => position_of_text(fen@) == Ok::<PositionView, ParseError>(position@),
            Err(e) => position_of_text(fen@) == Err::<PositionView, ParseError>(e),
        },
{
    let chars = chars_of(fen);
    let fields = split_at(chars.as_slice(), ' ');
    if fields.len() != 6 {
        return Err(ParseError::InvalidPositionText);
    }
    proof {
        assert(forall|k: int| 0 <= k < 6 ==> texts(fields@)[k] == fields@[k]@);
    }
    let piece_placement = match parse_placement(fields[0].as_slice()) {
        Ok(cells) => cells,
        Err(e) => {
            return Err(e);
        },
    };
    let side_to_move = match parse_side(fields[1].as_slice()) {
        Ok(side) => side,
        Err(e) => {
            return Err(e);
        },
    };
    let castling_ability = match parse_castling(fields[2].as_slice()) {
        Ok(pieces) => pieces,
        Err(e) => {
            return Err(e);
        },
    };
    let en_passant_target_square = match parse_en_passant(fields[3].as_slice()) {
        Ok(square) => square,
        Err(e) => {
            return Err(e);
        },
    };
    let half_move_clock = match parse_counter(fields[4].as_slice()) {
        Ok(count) => count,
        Err(e) => {
            return Err(e);
        },
    };
    let full_move_counter = match parse_counter(fields[5].as_slice()) {
        Ok(count) => count,
        Err(e) => {
            return Err(e);
        },
    };
    Ok(
        Position {
            piece_placement,
            side_to_move,
            castling_ability,
            en_passant_target_square,
            half_move_clock,
            full_move_counter,
        },
    )
}

/// The decimal digit of `n`, for `0 <= n < 10`.
pub open spec fn digit_char(n: int) -> char {
    (n + '0' as int) as char
}

/// How many empty squares stand at the end of `cells`.
pub open spec fn trailing_empty(cells: Seq<Option<Piece>>) -> nat
    decreases cells.len(),
{
    if cells.len() == 0 || cells.last() is Some {
        0
    } else {
        1 + trailing_empty(cells.drop_last())
    }
}

/// The text of a rank: a letter for each piece, and for each longest run of empty
/// squares its length as a digit. For the squares of one rank, eight at most.
pub open spec fn rank_text(cells: Seq<Option<Piece>>) -> Seq<char>
    decreases cells.len(),
    via rank_text_decreases
{
    if cells.len() == 0 {
        Seq::empty()
    } else if cells.last() is Some {
        rank_text(cells.drop_last()).push(cells.last().unwrap().letter())
    } else {
        let run = trailing_empty(cells);
        rank_text(cells.take(cells.len() - run)).push(digit_char(run as int))
    }
}

#[via_fn]
proof fn rank_text_decreases(cells: Seq<Option<Piece>>) {
    lemma_trailing_empty_bounds(cells);
}

/// A run of empty squares at the end of `cells` is no longer than `cells`, and holds a
/// square where the last one is empty.
pub proof fn lemma_trailing_empty_bounds(cells: Seq<Option<Piece>>)
    ensures
        trailing_empty(cells) <= cells.len(),
        cells.len() > 0 && cells.last() is None ==> trailing_empty(cells) >= 1,
    decreases cells.len(),
{
    if cells.len() > 0 && cells.last() is None {
        lemma_trailing_empty_bounds(cells.drop_last());
    }
}

/// The text of the first `n` ranks of `cells`, with a slash between them.
pub open spec fn ranks_text(cells: Seq<Option<Piece>>, n: int) -> Seq<char>
    decreases n,
{
    if n <= 0 {
        Seq::empty()
    } else if n == 1 {
        rank_text(cells.subrange(0, 8))
    } else {
        ranks_text(cells, n - 1).push('/') + rank_text(cells.subrange(8 * (n - 1), 8 * n))
    }
}

/// The letter of the side to move.
pub open spec fn side_text(side: Color) -> Seq<char> {
    match side {
        Color::White => seq!['w'],
        Color::Black => seq!['b'],
    }
}

/// The letters of the castling rights; a dash where there is none.
pub open spec fn castling_text(pieces: Seq<Piece>) -> Seq<char> {
    if pieces.len() == 0 {
        seq!['-']
    } else {
        pieces.map_values(|piece: Piece| piece.letter())
    }
}

/// The coordinate of the square of a capture in passing; a dash where there is none.
pub open spec fn en_passant_text(square: Option<Square>) -> Seq<char> {
    match square {
        Some(square) => square.text_spec(),
        None => seq!['-'],
    }
}

/// The decimal digits of `n`, without leading zeros.
pub open spec fn decimal(n: nat) -> Seq<char>
    decreases n,
{
    if n < 10 {
        seq![digit_char(n as int)]
    } else {
        decimal(n / 10).push(digit_char((n % 10) as int))
    }
}

/// The text of a position: its six fields with a space between them.
pub open spec fn text_of_position(position: PositionView) -> Seq<char> {
    ranks_text(position.piece_placement, 8).push(' ') + side_text(position.side_to_move).push(
        ' ',
    ) + castling_text(position.castling_ability).push(' ') + en_passant_text(
        position.en_passant_target_square,
    ).push(' ') + decimal(position.half_move_clock as nat).push(' ') + decimal(
        position.full_move_counter as nat,
    )
}

/// Where the last piece stands at the end of `cells`, the run of empty squares after the
/// squares before them is no longer than what comes after.
proof fn lemma_trailing_empty(cells: Seq<Option<Piece>>, run: int)
    requires
        0 <= run <= cells.len(),
        forall|k: int| cells.len() - run <= k < cells.len() ==> cells[k] is None,
        run < cells.len() ==> cells[cells.len() - run - 1] is Some,
    ensures
        trailing_empty(cells) == run,
    decreases run,
{
    if run > 0 {
        let rest = cells.drop_last();
        lemma_trailing_empty(rest, run - 1);
    }
}

/// Appends the decimal digits of `n`.
fn push_decimal(text: &mut String, n: u32)
    ensures
        final(text)@ == old(text)@ + decimal(n as nat),
    decreases n,
{
    if n >= 10 {
        push_decimal(text, n / 10);
    }
    let digit = (48u8 + (n % 10) as u8) as char;
    text.push(digit);
    proof {
        if n >= 10 {
            assert(final(text)@ =~= old(text)@ + decimal(n as nat));
        } else {
            assert(final(text)@ =~= old(text)@ + decimal(n as nat));
        }
    }
}

/// Appends the text of the rank that `cells` holds from position `start` on.
fn push_rank(text: &mut String, cells: &[Option<Piece>], start: usize)
    requires
        start + 8 <= cells@.len(),
    ensures
        final(text)@ == old(text)@ + rank_text(cells@.subrange(start as int, start + 8)),
{
    let ghost rank = cells@.subrange(start as int, start + 8);
    let length = cells.len();
    let mut empty: u8 = 0;
    let mut file: usize = 0;
    proof {
        assert(rank.take(0) =~= Seq::<Option<Piece>>::empty());
        assert(old(text)@ + rank_text(rank.take(0)) =~= old(text)@);
    }
    while file < 8
        invariant
            file <= 8,
            empty <= file,
            start + 8 <= length,
            length == cells@.len(),
            rank == cells@.subrange(start as int, start + 8),
            forall|k: int| file - empty <= k < file ==> rank[k] is None,
            empty < file ==> rank[file - empty - 1] is Some,
            text@ == old(text)@ + rank_text(rank.take(file - empty)),
        decreases 8 - file,
    {
        match cells[start + file] {
            Some(piece) => {
                proof {
                    assert(rank[file as int] == Some(piece));
                    let shown = rank.take(file as int);
                    lemma_trailing_empty(shown, empty as int);
                    assert(shown.take(shown.len() - empty) =~= rank.take(file - empty));
                    let more = rank.take(file + 1);
                    assert(more.drop_last() =~= shown);
                    assert(more.last() == Some(piece));
                    assert(rank_text(more) == rank_text(shown).push(piece.letter()));
                    if empty > 0 {
                        assert(shown.last() == rank[file - 1]);
                        assert(rank_text(shown) == rank_text(rank.take(file - empty)).push(
                            digit_char(empty as int),
                        ));
                    } else {
                        assert(shown =~= rank.take(file - empty));
                    }
                }
                if empty > 0 {
                    text.push((48u8 + empty) as char);
                    empty = 0;
                }
                text.push(char::from(piece));
                proof {
                    assert(text@ =~= old(text)@ + rank_text(rank.take(file + 1)));
                }
            },
            None => {
                proof {
                    assert(rank[file as int] is None);
                }
                empty += 1;
            },
        }
        file += 1;
    }
    if empty > 0 {
        proof {
            let shown = rank.take(8);
            assert(shown =~= rank);
            lemma_trailing_empty(rank, empty as int);
            assert(rank.take(rank.len() - empty) =~= rank.take(8 - empty));
        }
        text.push((48u8 + empty) as char);
        proof {
            assert(text@ =~= old(text)@ + rank_text(rank));
        }
    } else {
        proof {
            assert(rank.take(8) =~= rank);
        }
    }
}

/// Writes a position down. `piece_placement` holds the 64 squares from the eighth rank
/// down, each rank from file a to file h.
pub fn create(
    piece_placement: &[Option<Piece>],
    side_to_move: Color,
    castling_ability: &[Piece],
    en_passant_target_square: Option<Square>,
    half_move_clock: u32,
    full_move_counter: u32,
) -> (text: String)
    requires
        piece_placement@.len() == 64,
    ensures
        text@ == text_of_position(
            PositionView {
                piece_placement: piece_placement@,
                side_to_move,
                castling_ability: castling_ability@,
                en_passant_target_square,
                half_move_clock,
                full_move_counter,
            },
        ),
{
    let mut text = String::new();
    let mut rank: usize = 0;
    while rank < 8
        invariant
            rank <= 8,
            piece_placement@.len() == 64,
            text@ == ranks_text(piece_placement@, rank as int),
        decreases 8 - rank,
    {
        if rank > 0 {
            text.push('/');
        }
        push_rank(&mut text, piece_placement, rank * 8);
        rank += 1;
        proof {
            assert(text@ =~= ranks_text(piece_placement@, rank as int));
        }
    }
    text.push(' ');
    match side_to_move {
        Color::White => text.push('w'),
        Color::Black => text.push('b'),
    }
    text.push(' ');
    let ghost before_castling = text@;
    if castling_ability.len() == 0 {
        text.push('-');
    } else {
        let mut i: usize = 0;
        while i < castling_ability.len()
            invariant
                i <= castling_ability@.len(),
                text@ == before_castling + castling_ability@.take(i as int).map_values(
                    |piece: Piece| piece.letter(),
                ),
            decreases castling_ability@.len() - i,
        {
            text.push(char::from(castling_ability[i]));
            i += 1;
            proof {
                assert(castling_ability@.take(i as int).map_values(|piece: Piece| piece.letter())
                    =~= castling_ability@.take(i - 1).map_values(|piece: Piece| piece.letter()).push(
                    castling_ability@[i - 1].letter(),
                ));
            }
        }
        proof {
            assert(castling_ability@.take(castling_ability@.len() as int) =~= castling_ability@);
        }
    }
    text.push(' ');
    match en_passant_target_square {
        Some(square) => {
            text.push(square.get_file());
            text.push((square.get_index() / 8 + 49u8) as char);
        },
        None => {
            text.push('-');
        },
    }
    text.push(' ');
    push_decimal(&mut text, half_move_clock);
    text.push(' ');
    push_decimal(&mut text, full_move_counter);
    proof {
        assert(text@ =~= text_of_position(
            PositionView {
                piece_placement: piece_placement@,
                side_to_move,
                castling_ability: castling_ability@,
                en_passant_target_square,
                half_move_clock,
                full_move_counter,
            },
        ));
    }
    text
}

/// The ranks that are read hold eight squares each.
pub proof fn lemma_ranks_length(ranks: Seq<Seq<char>>)
    ensures
        placement_of_ranks(ranks) matches Ok(cells) ==> cells.len() == 8 * ranks.len(),
    decreases ranks.len(),
{
    if ranks.len() > 0 {
        lemma_ranks_length(ranks.drop_last());
    }
}

/// A position that is read has 64 squares.
pub proof fn lemma_placement_length(text: Seq<char>)
    ensures
        position_of_text(text) matches Ok(position) ==> position.piece_placement.len() == 64,
{
    let fields = split(text, ' ');
    if fields.len() == 6 {
        lemma_ranks_length(split(fields[0], '/'));
    }
}

/// A part that holds no separator is cut off whole: after `prefix` and a separator, the
/// parts are those of `prefix` and then `field`.
pub proof fn lemma_split_field(prefix: Seq<char>, field: Seq<char>, separator: char)
    requires
        !field.contains(separator),
    ensures
        split(prefix.push(separator) + field, separator) == split(prefix, separator).push(field),
    decreases field.len(),
{
    let text = prefix.push(separator) + field;
    if field.len() == 0 {
        assert(text.drop_last() =~= prefix);
        assert(field =~= Seq::<char>::empty());
    } else {
        let shorter = field.drop_last();
        assert(text.drop_last() =~= prefix.push(separator) + shorter);
        assert(text.last() == field.last());
        assert(field.contains(field.last()));
        assert forall|i: int| 0 <= i < shorter.len() implies shorter[i] != separator by {
            assert(field.contains(field[i]));
        }
        lemma_split_field(prefix, shorter, separator);
        let parts = split(prefix, separator).push(shorter);
        assert(parts.drop_last() =~= split(prefix, separator));
        assert(shorter.push(field.last()) =~= field);
    }
}

/// A text that holds no separator is one part.
pub proof fn lemma_split_whole(field: Seq<char>, separator: char)
    requires
        !field.contains(separator),
    ensures
        split(field, separator) == seq![field],
    decreases field.len(),
{
    if field.len() == 0 {
        assert(field =~= Seq::<char>::empty());
    } else {
        let shorter = field.drop_last();
        assert(field.contains(field.last()));
        assert forall|i: int| 0 <= i < shorter.len() implies shorter[i] != separator by {
            assert(field.contains(field[i]));
        }
        lemma_split_whole(shorter, separator);
        assert(seq![shorter].drop_last() =~= Seq::<Seq<char>>::empty());
        assert(shorter.push(field.last()) =~= field);
        assert(Seq::<Seq<char>>::empty().push(field) =~= seq![field]);
    }
}

/// The squares before a closing run of empty squares, and then that many empty squares,
/// are all the squares.
proof fn lemma_trailing_empty_cells(cells: Seq<Option<Piece>>)
    ensures
        cells.take(cells.len() - trailing_empty(cells)) + Seq::new(
            trailing_empty(cells),
            |k: int| None::<Piece>,
        ) == cells,
    decreases cells.len(),
{
    lemma_trailing_empty_bounds(cells);
    let run = trailing_empty(cells);
    if cells.len() > 0 && cells.last() is None {
        let rest = cells.drop_last();
        lemma_trailing_empty_cells(rest);
        lemma_trailing_empty_bounds(rest);
        let inner = trailing_empty(rest);
        assert(rest.take(rest.len() - inner) =~= cells.take(cells.len() - run));
        assert(cells =~= (rest.take(rest.len() - inner) + Seq::new(
            inner,
            |k: int| None::<Piece>,
        )).push(None));
        assert(cells.take(cells.len() - run) + Seq::new(run, |k: int| None::<Piece>) =~= cells);
    } else {
        assert(cells.take(cells.len() - run) + Seq::new(run, |k: int| None::<Piece>) =~= cells);
    }
}

/// Reading the text of a rank gives its squares back, and the text holds neither a slash
/// nor a space.
pub proof fn lemma_rank_round_trip(cells: Seq<Option<Piece>>)
    requires
        cells.len() <= 8,
    ensures
        rank_cells(rank_text(cells)) == Ok::<Seq<Option<Piece>>, ParseError>(cells),
        !rank_text(cells).contains('/'),
        !rank_text(cells).contains(' '),
    decreases cells.len(),
{
    let text = rank_text(cells);
    if cells.len() == 0 {
        assert(cells =~= Seq::<Option<Piece>>::empty());
    } else if cells.last() is Some {
        let rest = cells.drop_last();
        let piece = cells.last().unwrap();
        lemma_rank_round_trip(rest);
        piece.lemma_letter_inverse(piece.letter());
        assert(text.drop_last() =~= rank_text(rest));
        assert(rest.push(Some(piece)) =~= cells);
        assert forall|i: int| 0 <= i < text.len() implies text[i] != '/' && text[i] != ' ' by {
            if i < text.len() - 1 {
                assert(rank_text(rest).contains(rank_text(rest)[i]));
            }
        }
    } else {
        lemma_trailing_empty_bounds(cells);
        lemma_trailing_empty_cells(cells);
        let run = trailing_empty(cells);
        let rest = cells.take(cells.len() - run);
        lemma_rank_round_trip(rest);
        assert(text.drop_last() =~= rank_text(rest));
        assert(text.last() == digit_char(run as int));
        assert(text.last() as int - '0' as int == run);
        assert forall|i: int| 0 <= i < text.len() implies text[i] != '/' && text[i] != ' ' by {
            if i < text.len() - 1 {
                assert(rank_text(rest).contains(rank_text(rest)[i]));
            }
        }
    }
}

/// The ranks of a diagram, as texts.
pub open spec fn rank_texts(cells: Seq<Option<Piece>>, n: int) -> Seq<Seq<char>> {
    Seq::new(n as nat, |r: int| rank_text(cells.subrange(8 * r, 8 * r + 8)))
}

/// Reading the text of the first `n` ranks of a diagram gives their squares back, and
/// the text holds no space.
pub proof fn lemma_ranks_round_trip(cells: Seq<Option<Piece>>, n: int)
    requires
        1 <= n,
        8 * n <= cells.len(),
    ensures
        split(ranks_text(cells, n), '/') == rank_texts(cells, n),
        placement_of_ranks(rank_texts(cells, n)) == Ok::<Seq<Option<Piece>>, ParseError>(
            cells.subrange(0, 8 * n),
        ),
        !ranks_text(cells, n).contains(' '),
    decreases n,
{
    let last = cells.subrange(8 * (n - 1), 8 * n);
    lemma_rank_round_trip(last);
    let text = ranks_text(cells, n);
    assert(rank_texts(cells, n).last() == rank_text(last));
    assert(rank_of_text(rank_text(last)) == Ok::<Seq<Option<Piece>>, ParseError>(last));
    if n == 1 {
        lemma_split_whole(rank_text(last), '/');
        assert(rank_texts(cells, 1) =~= seq![rank_text(last)]);
        assert(rank_texts(cells, 1).drop_last() =~= Seq::<Seq<char>>::empty());
        assert(placement_of_ranks(rank_texts(cells, 1).drop_last()) == Ok::<
            Seq<Option<Piece>>,
            ParseError,
        >(Seq::empty()));
        assert(Seq::<Option<Piece>>::empty() + last =~= cells.subrange(0, 8));
    } else {
        lemma_ranks_round_trip(cells, n - 1);
        let before = ranks_text(cells, n - 1);
        lemma_split_field(before, rank_text(last), '/');
        assert(rank_texts(cells, n - 1).push(rank_text(last)) =~= rank_texts(cells, n));
        assert(rank_texts(cells, n).drop_last() =~= rank_texts(cells, n - 1));
        assert(cells.subrange(0, 8 * (n - 1)) + last =~= cells.subrange(0, 8 * n));
        assert forall|i: int| 0 <= i < text.len() implies text[i] != ' ' by {
            if i < before.len() {
                assert(before.contains(before[i]));
            } else if i > before.len() {
                assert(rank_text(last).contains(rank_text(last)[i - before.len() - 1]));
            }
        }
    }
}

/// Reading the digits of a number gives the number back; there is a digit at least, and
/// nothing but digits.
pub proof fn lemma_decimal_round_trip(n: nat)
    ensures
        digits_value(decimal(n)) == Some(n as int),
        decimal(n).len() > 0,
        !decimal(n).contains(' '),
    decreases n,
{
    let text = decimal(n);
    if n < 10 {
        assert(text.drop_last() =~= Seq::<char>::empty());
        assert(digits_value(text.drop_last()) == Some(0int));
        assert(text.last() == digit_char(n as int));
        assert(text.last() as int - '0' as int == n);
    } else {
        lemma_decimal_round_trip(n / 10);
        let before = decimal(n / 10);
        assert(text.drop_last() =~= before);
        assert(text.last() == digit_char((n % 10) as int));
        assert(text.last() as int - '0' as int == n % 10);
        assert forall|i: int| 0 <= i < text.len() implies text[i] != ' ' by {
            if i < before.len() {
                assert(before.contains(before[i]));
            }
        }
    }
}

/// Reading the letters of castling rights gives the rights back.
pub proof fn lemma_castling_round_trip(pieces: Seq<Piece>)
    requires
        forall|i: int| 0 <= i < pieces.len() ==> is_castling_piece(#[trigger] pieces[i]),
    ensures
        castling_pieces(pieces.map_values(|piece: Piece| piece.letter())) == Ok::<
            Seq<Piece>,
            ParseError,
        >(pieces),
        castling_of_text(castling_text(pieces)) == Ok::<Seq<Piece>, ParseError>(pieces),
        !castling_text(pieces).contains(' '),
    decreases pieces.len(),
{
    let text = pieces.map_values(|piece: Piece| piece.letter());
    if pieces.len() == 0 {
        assert(pieces =~= Seq::<Piece>::empty());
        assert(text =~= Seq::<char>::empty());
    } else {
        let rest = pieces.drop_last();
        lemma_castling_round_trip(rest);
        assert(text.drop_last() =~= rest.map_values(|piece: Piece| piece.letter()));
        pieces.last().lemma_letter_inverse(text.last());
        assert(rest.push(pieces.last()) =~= pieces);
        assert(text[0] == pieces[0].letter());
        pieces[0].lemma_letter_inverse('-');
        assert(text != seq!['-']);
        assert forall|i: int| 0 <= i < text.len() implies text[i] != ' ' by {
            pieces[i].lemma_letter_inverse(' ');
        }
    }
}

/// Reading the text of a position gives the position back, where the position has 64
/// squares and its castling rights are kings and queens.
pub proof fn lemma_text_round_trip(position: PositionView)
    requires
        position.piece_placement.len() == 64,
        forall|i: int|
            0 <= i < position.castling_ability.len() ==> is_castling_piece(
                #[trigger] position.castling_ability[i],
            ),
    ensures
        position_of_text(text_of_position(position)) == Ok::<PositionView, ParseError>(position),
{
    let placement = ranks_text(position.piece_placement, 8);
    let side = side_text(position.side_to_move);
    let castling = castling_text(position.castling_ability);
    let en_passant = en_passant_text(position.en_passant_target_square);
    let half = decimal(position.half_move_clock as nat);
    let full = decimal(position.full_move_counter as nat);
    lemma_ranks_round_trip(position.piece_placement, 8);
    assert(position.piece_placement.subrange(0, 64) =~= position.piece_placement);
    lemma_castling_round_trip(position.castling_ability);
    lemma_decimal_round_trip(position.half_move_clock as nat);
    lemma_decimal_round_trip(position.full_move_counter as nat);
    match position.en_passant_target_square {
        Some(square) => {
            square.lemma_text_round_trip();
            square.lemma_index_range();
            assert(en_passant[0] != '-');
        },
        None => {},
    }
    assert(!side.contains(' '));
    assert(!en_passant.contains(' ')) by {
        match position.en_passant_target_square {
            Some(square) => {
                square.lemma_index_range();
            },
            None => {},
        }
    }
    let one = placement;
    let two = one.push(' ') + side;
    let three = two.push(' ') + castling;
    let four = three.push(' ') + en_passant;
    let five = four.push(' ') + half;
    let six = five.push(' ') + full;
    lemma_split_whole(one, ' ');
    lemma_split_field(one, side, ' ');
    lemma_split_field(two, castling, ' ');
    lemma_split_field(three, en_passant, ' ');
    lemma_split_field(four, half, ' ');
    lemma_split_field(five, full, ' ');
    assert(six =~= text_of_position(position));
    let fields = split(six, ' ');
    assert(fields =~= seq![placement, side, castling, en_passant, half, full]);
}

} // verus!
