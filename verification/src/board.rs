//! The position: which squares each of the twelve piece identities holds, which squares
//! each side holds, which squares are held at all, and whose turn it is.

pub mod move_gen;

use crate::bitboard::{scan_position, sym_diff, BitBoard};
use crate::common::color::Color;
use crate::common::error::ParseError;
use crate::common::pieces::Piece;
use crate::common::squares::Square;
use crate::constants::{
    BLACK_BISHOPS, BLACK_KING, BLACK_KNIGHTS, BLACK_PAWNS, BLACK_QUEENS, BLACK_ROOKS,
    WHITE_BISHOPS, WHITE_KING, WHITE_KNIGHTS, WHITE_PAWNS, WHITE_QUEENS, WHITE_ROOKS,
};
use crate::fen::{
    create, lemma_placement_length, lemma_text_round_trip, parse, position_of_text,
    text_of_position, PositionView,
};
use crate::moves::Move;
use itertools::Itertools;
use vstd::prelude::*;
use vstd::std_specs::convert::TryFromSpecImpl;

verus! {

#[derive(Debug, Clone, Copy, PartialEq, Eq, PartialOrd, Ord, Hash)]
pub struct Board {
    // Even indexes are white pieces, odd are black pieces.
    pieces: [BitBoard; 12],
    all: [BitBoard; 2],
    occupied: BitBoard,
    side_to_move: Color,
}

/// The squares of the first `n` boards of `boards` whose position has parity `parity`.
pub open spec fn union_of_parity(boards: Seq<BitBoard>, parity: int, n: int) -> Set<int>
    decreases n,
{
    if n <= 0 {
        Set::empty()
    } else if (n - 1) % 2 == parity {
        union_of_parity(boards, parity, n - 1).union(boards[n - 1]@)
    } else {
        union_of_parity(boards, parity, n - 1)
    }
}

/// Of twelve boards, those at even positions and those at odd positions, united.
pub proof fn lemma_union_of_twelve(boards: Seq<BitBoard>)
    requires
        boards.len() == 12,
    ensures
        union_of_parity(boards, 0, 12) == boards[0]@.union(boards[2]@).union(boards[4]@).union(
            boards[6]@,
        ).union(boards[8]@).union(boards[10]@),
        union_of_parity(boards, 1, 12) == boards[1]@.union(boards[3]@).union(boards[5]@).union(
            boards[7]@,
        ).union(boards[9]@).union(boards[11]@),
{
    reveal_with_fuel(union_of_parity, 13);
    assert(union_of_parity(boards, 0, 12) =~= boards[0]@.union(boards[2]@).union(
        boards[4]@,
    ).union(boards[6]@).union(boards[8]@).union(boards[10]@));
    assert(union_of_parity(boards, 1, 12) =~= boards[1]@.union(boards[3]@).union(
        boards[5]@,
    ).union(boards[7]@).union(boards[9]@).union(boards[11]@));
}

/// The squares that each side holds, white first: the union of every second board of
/// `pieces`, starting with the first for white and with the second for black.
pub fn get_all_bitboards(pieces: &[BitBoard]) -> (all: [BitBoard; 2])
    ensures
        all[0]@ == union_of_parity(pieces@, 0, pieces@.len() as int),
        all[1]@ == union_of_parity(pieces@, 1, pieces@.len() as int),
{
    let mut all = [BitBoard::empty(), BitBoard::empty()];
    let mut i: usize = 0;
    while i < pieces.len()
        invariant
            i <= pieces@.len(),
            all[0]@ == union_of_parity(pieces@, 0, i as int),
            all[1]@ == union_of_parity(pieces@, 1, i as int),
        decreases pieces@.len() - i,
    {
        all[i % 2] = all[i % 2] | pieces[i];
        i += 1;
    }
    all
}

/// The squares that either side holds.
pub fn get_occupied_bitboard(all: &[BitBoard]) -> (occupied: BitBoard)
    requires
        all@.len() >= 2,
    ensures
        occupied@ == all@[0]@.union(all@[1]@),
        occupied.0 == all@[0].0 | all@[1].0,
{
    all[0] | all[1]
}

/// The twelve sets of the position from which a game starts.
pub open spec fn initial_piece_sets() -> Seq<BitBoard> {
    seq![
                BitBoard(WHITE_PAWNS),
                BitBoard(BLACK_PAWNS),
                BitBoard(WHITE_KNIGHTS),
                BitBoard(BLACK_KNIGHTS),
                BitBoard(WHITE_BISHOPS),
                BitBoard(BLACK_BISHOPS),
                BitBoard(WHITE_ROOKS),
                BitBoard(BLACK_ROOKS),
                BitBoard(WHITE_QUEENS),
                BitBoard(BLACK_QUEENS),
                BitBoard(WHITE_KING),
                BitBoard(BLACK_KING),
    ]
}

proof fn lemma_initial_sets_apart(i: u64)
    by (bit_vector)
    requires
        i < 64,
    ensures
        ((WHITE_PAWNS >> i) & 1) + ((BLACK_PAWNS >> i) & 1) + ((WHITE_KNIGHTS >> i) & 1) + ((BLACK_KNIGHTS >> i) & 1) + ((WHITE_BISHOPS >> i) & 1) + ((BLACK_BISHOPS >> i) & 1) + ((WHITE_ROOKS >> i) & 1) + ((BLACK_ROOKS >> i) & 1) + ((WHITE_QUEENS >> i) & 1) + ((BLACK_QUEENS >> i) & 1) + ((WHITE_KING >> i) & 1) + ((BLACK_KING >> i) & 1) <= 1,
{
}

/// The sets of the starting position hold each square at most once.
pub proof fn lemma_initial_disjoint()
    ensures
        forall|j: int, k: int|
            0 <= j < k < 12 ==> #[trigger] initial_piece_sets()[j]@.disjoint(
                #[trigger] initial_piece_sets()[k]@,
            ),
{
    assert forall|j: int, k: int| 0 <= j < k < 12 implies #[trigger] initial_piece_sets()[j]@.disjoint(
        #[trigger] initial_piece_sets()[k]@,
    ) by {
        assert forall|i: int|
            !(initial_piece_sets()[j]@.contains(i) && initial_piece_sets()[k]@.contains(i)) by {
            if 0 <= i < 64 {
                lemma_initial_sets_apart(i as u64);
            }
        }
    }
}

/// `Itertools::collect_array` gathers what an iterator yields into an array, in order, if
/// it yields exactly as many items as the array holds, and gives nothing otherwise. Here
/// the items are those of a vector and the array holds twelve.
#[verifier::external_body]
fn collect_twelve(boards: Vec<BitBoard>) -> (array: Option<[BitBoard; 12]>)
    ensures
        array is Some <==> boards@.len() == 12,
        array is Some ==> array->0@ == boards@,
{
    boards.into_iter().collect_array()
}

/// The squares on which a diagram shows the piece with ordinal `k`. The diagram lists the
/// 64 squares from the eighth rank down, each rank from file a to file h.
pub open spec fn squares_of(cells: Seq<Option<Piece>>, k: int) -> Set<int> {
    Set::new(|i: int| 0 <= i < 64 && cells[scan_position(i)] == Some(Piece::at(k)))
}

impl Board {
    /// The squares of each piece identity, in the order of the identities.
    pub closed spec fn piece_sets(self) -> Seq<BitBoard> {
        self.pieces@
    }

    /// The squares of each side, white first.
    pub closed spec fn color_sets(self) -> Seq<BitBoard> {
        self.all@
    }

    /// The squares that hold a piece.
    pub closed spec fn occupancy(self) -> BitBoard {
        self.occupied
    }

    /// The side whose turn it is.
    pub closed spec fn side(self) -> Color {
        self.side_to_move
    }

    /// The squares that hold the piece `piece`.
    pub open spec fn piece_set(self, piece: Piece) -> Set<int> {
        self.piece_sets()[piece.ordinal()]@
    }

    /// The squares that hold a piece of `color`.
    pub open spec fn color_set(self, color: Color) -> Set<int> {
        self.color_sets()[color.ordinal()]@
    }

    /// The squares of all the pieces of `color`, united.
    pub open spec fn army(self, color: Color) -> Set<int> {
        union_of_parity(self.piece_sets(), color.ordinal(), 12)
    }

    /// No square holds two pieces, and each side's squares are those of its pieces.
    pub open spec fn sets_wf(self) -> bool {
        &&& forall|j: int, k: int|
            0 <= j < k < 12 ==> #[trigger] self.piece_sets()[j]@.disjoint(
                #[trigger] self.piece_sets()[k]@,
            )
        &&& self.color_set(Color::White) == self.army(Color::White)
        &&& self.color_set(Color::Black) == self.army(Color::Black)
    }

    /// What holds of a position as it is built: no square holds two pieces, each side's
    /// squares are those of its pieces, and the held squares are those of the two sides.
    pub open spec fn wf(self) -> bool {
        &&& self.sets_wf()
        &&& self.occupancy()@ == self.color_set(Color::White).union(self.color_set(Color::Black))
    }

    /// A position has twelve piece sets and two side sets.
    pub proof fn lemma_shape(self)
        ensures
            self.piece_sets().len() == 12,
            self.color_sets().len() == 2,
    {
    }

    /// Positions with the same sets and the same side to move are the same position.
    pub proof fn lemma_equal(self, other: Board)
        requires
            self.piece_sets() == other.piece_sets(),
            self.color_sets() == other.color_sets(),
            self.occupancy() == other.occupancy(),
            self.side() == other.side(),
        ensures
            self == other,
    {
        assert(self.pieces =~= other.pieces);
        assert(self.all =~= other.all);
    }

    /// The position without any piece, white to move.
    pub fn empty() -> (board: Board)
        ensures
            board.piece_sets() == Seq::new(12, |k: int| BitBoard(0)),
            board.color_sets() == Seq::new(2, |k: int| BitBoard(0)),
            board.occupancy() == BitBoard(0),
            board.side() == Color::White,
            board.wf(),
    {
        let board = Board {
            pieces: [BitBoard::empty(); 12],
            all: [BitBoard::empty(); 2],
            occupied: BitBoard::empty(),
            side_to_move: Color::White,
        };
        proof {
            assert(board.piece_sets() =~= Seq::new(12, |k: int| BitBoard(0)));
            assert(board.color_sets() =~= Seq::new(2, |k: int| BitBoard(0)));
            lemma_union_of_twelve(board.piece_sets());
            assert(board.army(Color::White) =~= Set::<int>::empty());
            assert(board.army(Color::Black) =~= Set::<int>::empty());
            assert(board.occupancy()@ =~= board.color_set(Color::White).union(
                board.color_set(Color::Black),
            ));
        }
        board
    }
    /// Whether the move `mv` fits the position: its piece stands on its source square, its
    /// destination is not held by the mover's own side, it is a capture exactly when the
    /// other side holds the destination, and it promotes to nothing.
    pub open spec fn admits(self, mv: Move) -> bool {
        &&& mv.promotion is None
        &&& self.piece_set(mv.piece).contains(mv.from.index())
        &&& !self.color_set(mv.piece.color()).contains(mv.to.index())
        &&& mv.is_capture == self.color_set(mv.piece.color().opposite_spec()).contains(
            mv.to.index(),
        )
    }

    /// The first piece identity from `k` on, in the order of the identities, that holds
    /// square `i`.
    pub open spec fn holder_from(self, i: int, k: int) -> Option<Piece>
        decreases 12 - k,
    {
        if k < 0 || k >= 12 {
            None
        } else if self.piece_sets()[k]@.contains(i) {
            Some(Piece::at(k))
        } else {
            self.holder_from(i, k + 1)
        }
    }

    /// The piece on square `i`: the first identity that holds it, if any does.
    pub open spec fn piece_at(self, i: int) -> Option<Piece> {
        self.holder_from(i, 0)
    }

    /// The position from which a game starts, white to move.
    pub fn initial_board() -> (board: Board)
        ensures
            board.piece_sets() == initial_piece_sets(),
            board.side() == Color::White,
            board.wf(),
    {
        // Same order as the piece identities.
        let pieces = [
            BitBoard(WHITE_PAWNS),
            BitBoard(BLACK_PAWNS),
            BitBoard(WHITE_KNIGHTS),
            BitBoard(BLACK_KNIGHTS),
            BitBoard(WHITE_BISHOPS),
            BitBoard(BLACK_BISHOPS),
            BitBoard(WHITE_ROOKS),
            BitBoard(BLACK_ROOKS),
            BitBoard(WHITE_QUEENS),
            BitBoard(BLACK_QUEENS),
            BitBoard(WHITE_KING),
            BitBoard(BLACK_KING),
        ];
        let all = get_all_bitboards(&pieces);
        let occupied = get_occupied_bitboard(&all);
        let board = Board { pieces, all, occupied, side_to_move: Color::White };
        proof {
            assert(board.piece_sets() =~= initial_piece_sets());
            lemma_initial_disjoint();
        }
        board
    }

    pub fn get_pieces(&self) -> (pieces: [BitBoard; 12])
        ensures
            pieces@ == self.piece_sets(),
    {
        self.pieces
    }

    pub fn get_all(&self) -> (all: [BitBoard; 2])
        ensures
            all@ == self.color_sets(),
    {
        self.all
    }

    pub fn get_occupied(&self) -> (occupied: BitBoard)
        ensures
            occupied == self.occupancy(),
    {
        self.occupied
    }

    pub fn get_side_to_move(&self) -> (side: Color)
        ensures
            side == self.side(),
    {
        self.side_to_move
    }

    pub fn opposite_side(&self) -> (side: Color)
        ensures
            side == self.side().opposite_spec(),
    {
        self.side_to_move.opposite()
    }

    /// The piece that stands on `square`, if any.
    pub fn get_piece_at(&self, square: Square) -> (piece: Option<Piece>)
        ensures
            piece == self.piece_at(square.index()),
    {
        let index = square.get_index();
        let mut k: usize = 0;
        while k < 12
            invariant
                k <= 12,
                index == square.index(),
                self.piece_at(square.index()) == self.holder_from(square.index(), k as int),
            decreases 12 - k,
        {
            if self.pieces[k].is_set(index) {
                return Some(Piece::from_index(k));
            }
            k += 1;
        }
        None
    }
    /// The squares that a move touches in the sets of its piece: its source and its
    /// destination, or none where the two are one square.
    pub open spec fn path(mv: Move) -> Set<int> {
        sym_diff(set![mv.from.index()], set![mv.to.index()])
    }

    /// The first identity from `k` on, in the order of the identities, that is of the other
    /// colour than the piece of `mv` and holds the destination of `mv`; by its ordinal.
    pub open spec fn victim_from(self, mv: Move, k: int) -> Option<int>
        decreases 12 - k,
    {
        if k < 0 || k >= 12 {
            None
        } else if k % 2 != mv.piece.ordinal() % 2 && self.piece_sets()[k]@.contains(
            mv.to.index(),
        ) {
            Some(k)
        } else {
            self.victim_from(mv, k + 1)
        }
    }

    /// The identity whose piece a capture takes off the board, by its ordinal; none for a
    /// move that is no capture, and none where the other side has nothing there.
    pub open spec fn victim(self, mv: Move) -> Option<int> {
        if mv.is_capture {
            self.victim_from(mv, 0)
        } else {
            None
        }
    }

    /// What a move makes of the position, set by set. The path of the move is exchanged
    /// in the set of the moving piece, in the set of its side and in the occupancy; a
    /// capture takes the destination out of the victim's set and out of the set of the
    /// victim's side. Nothing else changes.
    pub open spec fn moves_to(self, mv: Move, next: Board) -> bool {
        let mover = mv.piece.ordinal();
        let own = mv.piece.color();
        let other = own.opposite_spec();
        let to = set![mv.to.index()];
        &&& next.side() == self.side()
        &&& forall|k: int|
            0 <= k < 12 ==> #[trigger] next.piece_sets()[k]@ == (if k == mover {
                sym_diff(self.piece_sets()[k]@, Board::path(mv))
            } else if self.victim(mv) == Some(k) {
                sym_diff(self.piece_sets()[k]@, to)
            } else {
                self.piece_sets()[k]@
            })
        &&& next.color_set(own) == sym_diff(self.color_set(own), Board::path(mv))
        &&& next.color_set(other) == (if self.victim(mv) is Some {
            sym_diff(self.color_set(other), to)
        } else {
            self.color_set(other)
        })
        &&& next.occupancy()@ == sym_diff(self.occupancy()@, Board::path(mv))
    }

    /// Updates the position with the move `mv`, which must not promote. Castling and
    /// captures in passing are played as the plain moves they are written as.
    pub fn update_by_move(&mut self, mv: Move)
        requires
            mv.promotion is None,
        ensures
            old(self).moves_to(mv, *final(self)),
            old(self).sets_wf() && old(self).admits(mv) ==> final(self).sets_wf(),
            old(self).wf() && old(self).admits(mv) && !mv.is_capture ==> final(self).wf(),
            old(self).sets_wf() && old(self).admits(mv) ==> forall|i: int|
                0 <= i < 64 ==> #[trigger] final(self).piece_at(i) == (if i == mv.from.index() {
                    None
                } else if i == mv.to.index() {
                    Some(mv.piece)
                } else {
                    old(self).piece_at(i)
                }),
    {
        let color = mv.get_piece().get_color();
        let from_bb: BitBoard = BitBoard::from(mv.get_from());
        let to_bb: BitBoard = BitBoard::from(mv.get_to());
        let from_to_bb = from_bb ^ to_bb;
        let mover = mv.get_piece().get_index();
        let own = color.get_index();
        let other = color.opposite().get_index();

        self.pieces[mover] = self.pieces[mover] ^ from_to_bb;
        self.all[own] = self.all[own] ^ from_to_bb;

        if mv.is_capture() {
            // Only the sets of the other colour: every second one.
            let mut k: usize = other;
            while k < 12
                invariant_except_break
                    old(self).victim(mv) == old(self).victim_from(mv, k as int),
                    self.all@[other as int] == old(self).all@[other as int],
                    forall|j: int|
                        0 <= j < 12 ==> #[trigger] self.pieces@[j]@ == (if j == mover {
                            sym_diff(old(self).pieces@[j]@, Board::path(mv))
                        } else {
                            old(self).pieces@[j]@
                        }),
                invariant
                    k % 2 == other,
                    other == 1 - own,
                    own == mover % 2,
                    mover == mv.piece.ordinal(),
                    mv.is_capture,
                    to_bb@ == set![mv.to.index()],
                    self.side_to_move == old(self).side_to_move,
                    self.occupied == old(self).occupied,
                    self.all@[own as int]@ == sym_diff(old(self).all@[own as int]@, Board::path(mv)),
                ensures
                    self.all@[other as int]@ == (if old(self).victim(mv) is Some {
                        sym_diff(old(self).all@[other as int]@, to_bb@)
                    } else {
                        old(self).all@[other as int]@
                    }),
                    forall|j: int|
                        0 <= j < 12 ==> #[trigger] self.pieces@[j]@ == (if j == mover {
                            sym_diff(old(self).pieces@[j]@, Board::path(mv))
                        } else if old(self).victim(mv) == Some(j) {
                            sym_diff(old(self).pieces@[j]@, to_bb@)
                        } else {
                            old(self).pieces@[j]@
                        }),
                decreases 14 - k,
            {
                if !(self.pieces[k] & to_bb).is_zero() {
                    proof {
                        assert(self.pieces@[k as int]@.contains(mv.to.index())) by {
                            if !self.pieces@[k as int]@.contains(mv.to.index()) {
                                assert(self.pieces@[k as int]@.intersect(to_bb@) =~= Set::<int>::empty());
                            }
                        }
                    }
                    self.pieces[k] = self.pieces[k] ^ to_bb;
                    self.all[other] = self.all[other] ^ to_bb;
                    // One piece at most stands there: look no further.
                    break;
                }
                proof {
                    assert(!self.pieces@[k as int]@.contains(mv.to.index())) by {
                        if self.pieces@[k as int]@.contains(mv.to.index()) {
                            assert(self.pieces@[k as int]@.intersect(to_bb@).contains(mv.to.index()));
                        }
                    }
                    assert(old(self).victim_from(mv, k as int) == old(self).victim_from(
                        mv,
                        k as int + 2,
                    )) by {
                        reveal_with_fuel(Board::victim_from, 3);
                    }
                }
                k += 2;
            }
        }
        self.occupied = self.occupied ^ from_to_bb;
        proof {
            if old(self).sets_wf() && old(self).admits(mv) {
                old(self).lemma_move_keeps_wf(mv, *self);
            }
        }
    }
    /// Where no square holds two pieces, the piece on a square is the one identity that
    /// holds it, and its side, not the other, holds the square.
    pub proof fn lemma_piece_at(self, i: int)
        requires
            self.sets_wf(),
        ensures
            forall|k: int|
                0 <= k < 12 ==> (#[trigger] self.piece_sets()[k]@.contains(i) <==> self.piece_at(
                    i,
                ) == Some(Piece::at(k))),
            self.piece_at(i) is Some <==> self.color_set(Color::White).union(
                self.color_set(Color::Black),
            ).contains(i),
            self.piece_at(i) is Some ==> (self.color_set(self.piece_at(i).unwrap().color()).contains(
                i,
            ) && !self.color_set(self.piece_at(i).unwrap().color().opposite_spec()).contains(i)),
    {
        reveal_with_fuel(Board::holder_from, 13);
        lemma_union_of_twelve(self.piece_sets());
        assert forall|k: int| 0 <= k < 12 implies (#[trigger] self.piece_sets()[k]@.contains(i)
            <==> self.piece_at(i) == Some(Piece::at(k))) by {
            assert(forall|j: int|
                0 <= j < k ==> self.piece_sets()[j]@.disjoint(self.piece_sets()[k]@));
            assert(forall|j: int|
                k < j < 12 ==> self.piece_sets()[k]@.disjoint(self.piece_sets()[j]@));
        }
    }

    /// A move that fits a position in which no square holds two pieces leaves such a
    /// position: the moving piece stands on the destination, the source is empty, and
    /// every other square holds what it held. After a move that takes nothing the
    /// occupancy is again the squares of the two sides; after a capture it lacks one of
    /// them, the destination.
    pub proof fn lemma_move_keeps_wf(self, mv: Move, next: Board)
        requires
            self.sets_wf(),
            self.admits(mv),
            self.moves_to(mv, next),
        ensures
            next.sets_wf(),
            self.wf() && !mv.is_capture ==> next.wf(),
            self.wf() && mv.is_capture ==> next.occupancy()@ == next.color_set(Color::White).union(
                next.color_set(Color::Black),
            ).remove(mv.to.index()),
            forall|i: int|
                0 <= i < 64 ==> #[trigger] next.piece_at(i) == (if i == mv.from.index() {
                    None
                } else if i == mv.to.index() {
                    Some(mv.piece)
                } else {
                    self.piece_at(i)
                }),
    {
        let from = mv.from.index();
        let to = mv.to.index();
        let mover = mv.piece.ordinal();
        mv.piece.lemma_ordinal_range();
        mv.from.lemma_index_range();
        mv.to.lemma_index_range();
        self.lemma_shape();
        next.lemma_shape();
        lemma_union_of_twelve(self.piece_sets());
        lemma_union_of_twelve(next.piece_sets());
        self.lemma_piece_at(from);
        self.lemma_piece_at(to);
        self.lemma_victim(mv);
        assert(from != to);
        assert(Board::path(mv) =~= set![from, to]);
        assert forall|j: int, k: int| 0 <= j < k < 12 implies #[trigger] next.piece_sets()[j]@.disjoint(
            #[trigger] next.piece_sets()[k]@,
        ) by {
            assert(self.piece_sets()[j]@.disjoint(self.piece_sets()[k]@));
            assert(forall|m: int|
                0 <= m < mover ==> self.piece_sets()[m]@.disjoint(self.piece_sets()[mover]@));
            assert(forall|m: int|
                mover < m < 12 ==> self.piece_sets()[mover]@.disjoint(self.piece_sets()[m]@));
        }
        assert(next.color_set(Color::White) =~= next.army(Color::White));
        assert(next.color_set(Color::Black) =~= next.army(Color::Black));
        if self.wf() {
            if mv.is_capture {
                assert(next.occupancy()@ =~= next.color_set(Color::White).union(
                    next.color_set(Color::Black),
                ).remove(to));
            } else {
                assert(next.occupancy()@ =~= next.color_set(Color::White).union(
                    next.color_set(Color::Black),
                ));
            }
        }
        assert forall|i: int| 0 <= i < 64 implies #[trigger] next.piece_at(i) == (if i == from {
            None
        } else if i == to {
            Some(mv.piece)
        } else {
            self.piece_at(i)
        }) by {
            self.lemma_piece_at(i);
            next.lemma_piece_at(i);
            reveal_with_fuel(Board::holder_from, 13);
        }
    }

    /// Where a capture fits a position in which no square holds two pieces, its victim is the one identity of the
    /// other side that holds the destination; a move that takes nothing has no victim.
    pub proof fn lemma_victim(self, mv: Move)
        requires
            self.sets_wf(),
            self.admits(mv),
        ensures
            mv.is_capture ==> self.victim(mv) is Some,
            forall|k: int|
                0 <= k < 12 && k != mv.piece.ordinal() ==> (self.victim(mv) == Some(k)
                    <==> #[trigger] self.piece_sets()[k]@.contains(mv.to.index())),
            forall|k: int| self.victim(mv) == Some(k) ==> 0 <= k < 12 && k != mv.piece.ordinal(),
    {
        reveal_with_fuel(Board::victim_from, 13);
        mv.piece.lemma_ordinal_range();
        lemma_union_of_twelve(self.piece_sets());
        self.lemma_piece_at(mv.to.index());
    }
    /// Whether this is the position that a diagram shows, with `side` to move: well formed,
    /// and with each piece on the squares where the diagram has it.
    pub open spec fn shows(self, cells: Seq<Option<Piece>>, side: Color) -> bool {
        &&& self.wf()
        &&& self.side() == side
        &&& forall|k: int| 0 <= k < 12 ==> #[trigger] self.piece_sets()[k]@ == squares_of(cells, k)
    }

    /// The position that a diagram shows, with `side` to move.
    pub open spec fn of_placement(cells: Seq<Option<Piece>>, side: Color) -> Board {
        choose|board: Board| board.shows(cells, side)
    }

    /// The position that a position text writes down. Of its fields only the placement and
    /// the side to move go into the position.
    pub open spec fn of_text(text: Seq<char>) -> Result<Board, ParseError> {
        match position_of_text(text) {
            Ok(position) => Ok(
                Board::of_placement(position.piece_placement, position.side_to_move),
            ),
            Err(e) => Err(e),
        }
    }

    /// The diagram of the position: what each square holds, from the eighth rank down,
    /// each rank from file a to file h.
    pub open spec fn placement(self) -> Seq<Option<Piece>> {
        Seq::new(64, |k: int| self.piece_at(scan_position(k)))
    }

    /// The text that writes the position down. It always gives white the move and every
    /// castling right, names no square for a capture in passing, and starts the counters
    /// anew.
    pub open spec fn text(self) -> Seq<char> {
        text_of_position(
            PositionView {
                piece_placement: self.placement(),
                side_to_move: Color::White,
                castling_ability: seq![
                    Piece::WhiteKing,
                    Piece::WhiteQueen,
                    Piece::BlackKing,
                    Piece::BlackQueen,
                ],
                en_passant_target_square: None,
                half_move_clock: 0,
                full_move_counter: 1,
            },
        )
    }

    /// One position at most shows a diagram with a side to move.
    pub proof fn lemma_shows_unique(self, other: Board, cells: Seq<Option<Piece>>, side: Color)
        requires
            self.shows(cells, side),
            other.shows(cells, side),
        ensures
            self == other,
            self == Board::of_placement(cells, side),
    {
        self.lemma_same_sets(other);
        let chosen = Board::of_placement(cells, side);
        self.lemma_same_sets(chosen);
    }

    /// Well-formed positions with the same squares for each piece and the same side to
    /// move are the same position.
    pub proof fn lemma_same_sets(self, other: Board)
        requires
            self.wf(),
            other.wf(),
            self.side() == other.side(),
            forall|k: int|
                0 <= k < 12 ==> #[trigger] self.piece_sets()[k]@ == other.piece_sets()[k]@,
        ensures
            self == other,
    {
        assert forall|k: int| 0 <= k < 12 implies self.piece_sets()[k] == other.piece_sets()[k] by {
            assert(self.piece_sets()[k]@ == other.piece_sets()[k]@);
            self.piece_sets()[k].lemma_view(other.piece_sets()[k]);
        }
        assert(self.piece_sets() =~= other.piece_sets());
        self.color_sets()[0].lemma_view(other.color_sets()[0]);
        self.color_sets()[1].lemma_view(other.color_sets()[1]);
        assert(self.color_sets() =~= other.color_sets());
        self.occupancy().lemma_view(other.occupancy());
        self.lemma_equal(other);
    }

    /// The position that a diagram shows, with `side_to_move` to move. The diagram lists
    /// the 64 squares from the eighth rank down, each rank from file a to file h.
    pub fn from_placement(piece_placement: &[Option<Piece>], side_to_move: Color) -> (board: Board)
        requires
            piece_placement@.len() == 64,
        ensures
            board.shows(piece_placement@, side_to_move),
            board == Board::of_placement(piece_placement@, side_to_move),
    {
        let mut sets: Vec<BitBoard> = Vec::new();
        let mut k: usize = 0;
        while k < 12
            invariant
                k <= 12,
                piece_placement@.len() == 64,
                sets@.len() == k,
                forall|j: int| 0 <= j < k ==> #[trigger] sets@[j]@ == squares_of(piece_placement@, j),
            decreases 12 - k,
        {
            let piece = Piece::from_index(k);
            // Which cells of the diagram show this piece.
            let mut filtered: Vec<bool> = Vec::new();
            let mut i: usize = 0;
            while i < 64
                invariant
                    i <= 64,
                    piece_placement@.len() == 64,
                    filtered@.len() == i,
                    forall|j: int|
                        0 <= j < i ==> #[trigger] filtered@[j] == (piece_placement@[j] == Some(
                            piece,
                        )),
                decreases 64 - i,
            {
                let shown = match piece_placement[i] {
                    Some(p) => p == piece,
                    None => false,
                };
                filtered.push(shown);
                i += 1;
            }
            let set = BitBoard::from_cells(filtered.as_slice());
            proof {
                assert(set@ =~= squares_of(piece_placement@, k as int));
            }
            sets.push(set);
            k += 1;
        }
        let pieces: [BitBoard; 12] = collect_twelve(sets).unwrap();
        let all = get_all_bitboards(&pieces);
        let occupied = get_occupied_bitboard(&all);
        let board = Board { pieces, all, occupied, side_to_move };
        proof {
            assert forall|j: int, k: int| 0 <= j < k < 12 implies #[trigger] board.piece_sets()[j]@.disjoint(
                #[trigger] board.piece_sets()[k]@,
            ) by {
                Piece::lemma_at_ordinal(j);
                Piece::lemma_at_ordinal(k);
            }
            board.lemma_shows_unique(board, piece_placement@, side_to_move);
        }
        board
    }

    /// Reads a position from its text. The castling rights, the square of a capture in
    /// passing and the counters must be well written, and are then left aside.
    pub fn from_fen(fen: &str) -> (result: Result<Board, ParseError>)
        ensures
            result == Board::of_text(fen@),
            match position_of_text(fen@) {
                Ok(position) => result matches Ok(board) && board.shows(
                    position.piece_placement,
                    position.side_to_move,
                ),
                Err(e) => result == Err::<Board, ParseError>(e),
            },
    {
        match parse(fen) {
            Ok(position) => {
                proof {
                    lemma_placement_length(fen@);
                }
                Ok(
                    Board::from_placement(
                        position.piece_placement.as_slice(),
                        position.side_to_move,
                    ),
                )
            },
            Err(e) => Err(e),
        }
    }

    /// The diagram of the position: what each square holds, from the eighth rank down,
    /// each rank from file a to file h.
    pub fn get_placement(&self) -> (piece_placement: Vec<Option<Piece>>)
        ensures
            piece_placement@ == self.placement(),
    {
        let mut piece_placement: Vec<Option<Piece>> = Vec::new();
        let mut k: u8 = 0;
        while k < 64
            invariant
                k <= 64,
                piece_placement@.len() == k,
                forall|j: int|
                    0 <= j < k ==> #[trigger] piece_placement@[j] == self.piece_at(scan_position(j)),
            decreases 64 - k,
        {
            let square = Square::from_index((7 - k / 8) * 8 + k % 8);
            piece_placement.push(self.get_piece_at(square));
            k += 1;
        }
        proof {
            assert(piece_placement@ =~= self.placement());
        }
        piece_placement
    }

    /// Writes the position down as a position text.
    pub fn as_fen(&self) -> (text: String)
        ensures
            text@ == self.text(),
    {
        let piece_placement = self.get_placement();
        let castling_ability = [
            Piece::WhiteKing,
            Piece::WhiteQueen,
            Piece::BlackKing,
            Piece::BlackQueen,
        ];
        proof {
            assert(castling_ability@ =~= seq![
                Piece::WhiteKing,
                Piece::WhiteQueen,
                Piece::BlackKing,
                Piece::BlackQueen,
            ]);
        }
        create(piece_placement.as_slice(), Color::White, &castling_ability, None, 0, 1)
    }
    /// A well-formed position is the one that its own diagram shows.
    pub proof fn lemma_shows_placement(self)
        requires
            self.wf(),
        ensures
            self.shows(self.placement(), self.side()),
            Board::of_placement(self.placement(), self.side()) == self,
    {
        let cells = self.placement();
        assert forall|k: int| 0 <= k < 12 implies #[trigger] self.piece_sets()[k]@ == squares_of(
            cells,
            k,
        ) by {
            assert forall|i: int| self.piece_sets()[k]@.contains(i) == squares_of(
                cells,
                k,
            ).contains(i) by {
                self.piece_sets()[k].lemma_view(self.piece_sets()[k]);
                if 0 <= i < 64 {
                    self.lemma_piece_at(i);
                    assert(scan_position(scan_position(i)) == i);
                    assert(cells[scan_position(i)] == self.piece_at(i));
                }
            }
            assert(self.piece_sets()[k]@ =~= squares_of(cells, k));
        }
        self.lemma_shows_unique(self, cells, self.side());
    }

    /// Writing a well-formed position with white to move down and reading the text again
    /// gives the position back.
    pub proof fn lemma_round_trip(self)
        requires
            self.wf(),
            self.side() == Color::White,
        ensures
            Board::of_text(self.text()) == Ok::<Board, ParseError>(self),
    {
        let position = PositionView {
            piece_placement: self.placement(),
            side_to_move: Color::White,
            castling_ability: seq![
                Piece::WhiteKing,
                Piece::WhiteQueen,
                Piece::BlackKing,
                Piece::BlackQueen,
            ],
            en_passant_target_square: None,
            half_move_clock: 0,
            full_move_counter: 1,
        };
        lemma_text_round_trip(position);
        self.lemma_shows_placement();
    }
}

impl TryFrom<&str> for Board {
    type Error = ParseError;

    /// Reads a position from its text.
    fn try_from(value: &str) -> (result: Result<Board, ParseError>) {
        Board::from_fen(value)
    }
}

impl TryFromSpecImpl<&str> for Board {
    open spec fn obeys_try_from_spec() -> bool {
        true
    }

    open spec fn try_from_spec(value: &str) -> Result<Board, ParseError> {
        Board::of_text(value@)
    }
}

} // verus!
