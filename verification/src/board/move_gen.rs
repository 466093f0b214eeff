//! Pseudo-legal move generation: the moves that the rules of movement allow, whether or
//! not they leave the mover's king attacked.

use crate::bitboard::{lowest, BitBoard};
use crate::board::Board;
use crate::common::pieces::Piece;
use crate::common::squares::Square;
use crate::movements::{
    bishop_moves, bishop_targets, black_pawn_moves, black_pawn_targets, king_moves, king_targets,
    knight_moves, knight_targets, queen_moves, queen_targets, rook_moves, rook_targets,
    white_pawn_moves, white_pawn_targets,
};
use crate::moves::Move;
use std::ops::Not;
use vstd::prelude::*;

verus! {

impl Board {
    /// Where `piece` can go from square `from` by the rule of its kind, before the squares
    /// of the side to move are taken out.
    pub open spec fn raw_targets(self, piece: Piece, from: int) -> Set<int> {
        let occupied = self.occupancy()@;
        let opposite = self.color_set(self.side().opposite_spec());
        match piece {
            Piece::WhiteKing | Piece::BlackKing => king_targets(from),
            Piece::WhiteKnight | Piece::BlackKnight => knight_targets(from),
            Piece::WhitePawn => white_pawn_targets(from, occupied, opposite),
            Piece::BlackPawn => black_pawn_targets(from, occupied, opposite),
            Piece::WhiteBishop | Piece::BlackBishop => bishop_targets(from, occupied),
            Piece::WhiteRook | Piece::BlackRook => rook_targets(from, occupied),
            Piece::WhiteQueen | Piece::BlackQueen => queen_targets(from, occupied),
        }
    }

    /// Where `piece` can go from square `from`: its raw targets that the side to move
    /// does not hold itself.
    pub open spec fn targets(self, piece: Piece, from: int) -> Set<int> {
        self.raw_targets(piece, from).difference(self.color_set(self.side()))
    }

    /// The move of `piece` from square `from` to square `to`: a capture exactly when the
    /// other side holds `to`.
    pub open spec fn move_to(self, piece: Piece, from: int, to: int) -> Move {
        Move {
            from: Square::at(from),
            to: Square::at(to),
            promotion: None,
            piece,
            is_capture: self.color_set(self.side().opposite_spec()).contains(to),
        }
    }

    /// The moves of `piece` from square `from` to the destinations below `n`, by rising
    /// destination.
    pub open spec fn moves_to_below(self, piece: Piece, from: int, n: int) -> Seq<Move>
        decreases n,
    {
        if n <= 0 {
            Seq::empty()
        } else if self.targets(piece, from).contains(n - 1) {
            self.moves_to_below(piece, from, n - 1).push(self.move_to(piece, from, n - 1))
        } else {
            self.moves_to_below(piece, from, n - 1)
        }
    }

    /// The moves of the pieces `piece` that stand on squares below `n`, by rising source
    /// and then by rising destination.
    pub open spec fn moves_from_below(self, piece: Piece, n: int) -> Seq<Move>
        decreases n,
    {
        if n <= 0 {
            Seq::empty()
        } else if self.piece_set(piece).contains(n - 1) {
            self.moves_from_below(piece, n - 1) + self.moves_to_below(piece, n - 1, 64)
        } else {
            self.moves_from_below(piece, n - 1)
        }
    }

    /// The moves of the piece identities below `n` that are asked for and belong to the
    /// side to move, by rising identity, then source, then destination.
    pub open spec fn moves_of_below(self, requested: Seq<Piece>, n: int) -> Seq<Move>
        decreases n,
    {
        if n <= 0 {
            Seq::empty()
        } else if Piece::at(n - 1).color() == self.side() && requested.contains(Piece::at(n - 1)) {
            self.moves_of_below(requested, n - 1) + self.moves_from_below(Piece::at(n - 1), 64)
        } else {
            self.moves_of_below(requested, n - 1)
        }
    }

    /// The pseudo-legal moves of the side to move with the pieces asked for.
    pub open spec fn moves_for(self, requested: Seq<Piece>) -> Seq<Move> {
        self.moves_of_below(requested, 12)
    }

    /// Destinations between `a` and `b` that are no targets add no move.
    pub proof fn lemma_moves_to_skip(self, piece: Piece, from: int, a: int, b: int)
        requires
            a <= b,
            forall|t: int| a <= t < b ==> !self.targets(piece, from).contains(t),
        ensures
            self.moves_to_below(piece, from, b) == self.moves_to_below(piece, from, a),
        decreases b - a,
    {
        if a < b {
            self.lemma_moves_to_skip(piece, from, a, b - 1);
        }
    }

    /// Squares between `a` and `b` without a piece `piece` add no move.
    pub proof fn lemma_moves_from_skip(self, piece: Piece, a: int, b: int)
        requires
            a <= b,
            forall|s: int| a <= s < b ==> !self.piece_set(piece).contains(s),
        ensures
            self.moves_from_below(piece, b) == self.moves_from_below(piece, a),
        decreases b - a,
    {
        if a < b {
            self.lemma_moves_from_skip(piece, a, b - 1);
        }
    }

    /// A move among those of `piece` from `from` is the move of that piece from that
    /// square to one of its targets.
    pub proof fn lemma_moves_to_below(self, piece: Piece, from: int, n: int, mv: Move)
        requires
            n <= 64,
            self.moves_to_below(piece, from, n).contains(mv),
        ensures
            0 <= mv.to.index() < n,
            self.targets(piece, from).contains(mv.to.index()),
            mv == self.move_to(piece, from, mv.to.index()),
        decreases n,
    {
        let moves = self.moves_to_below(piece, from, n);
        let i = choose|i: int| 0 <= i < moves.len() && moves[i] == mv;
        let rest = self.moves_to_below(piece, from, n - 1);
        if self.targets(piece, from).contains(n - 1) && i == rest.len() {
            Square::lemma_at_index(n - 1);
        } else {
            assert(rest[i] == mv);
            self.lemma_moves_to_below(piece, from, n - 1, mv);
        }
    }

    /// A move among those of the pieces `piece` starts on a square that holds such a piece
    /// and goes to one of its targets from there.
    pub proof fn lemma_moves_from_below(self, piece: Piece, n: int, mv: Move)
        requires
            n <= 64,
            self.moves_from_below(piece, n).contains(mv),
        ensures
            0 <= mv.from.index() < n,
            self.piece_set(piece).contains(mv.from.index()),
            self.targets(piece, mv.from.index()).contains(mv.to.index()),
            mv == self.move_to(piece, mv.from.index(), mv.to.index()),
        decreases n,
    {
        let moves = self.moves_from_below(piece, n);
        let i = choose|i: int| 0 <= i < moves.len() && moves[i] == mv;
        let rest = self.moves_from_below(piece, n - 1);
        if self.piece_set(piece).contains(n - 1) && i >= rest.len() {
            let last = self.moves_to_below(piece, n - 1, 64);
            assert(last[i - rest.len()] == mv);
            self.lemma_moves_to_below(piece, n - 1, 64, mv);
            Square::lemma_at_index(n - 1);
        } else {
            assert(rest[i] == mv);
            self.lemma_moves_from_below(piece, n - 1, mv);
        }
    }

    /// Every generated move fits the position: it is a move of a piece that was asked for
    /// and belongs to the side to move, from a square that holds such a piece to one of
    /// its targets; it promotes to nothing, and it is a capture exactly when the other
    /// side holds its destination.
    pub proof fn lemma_generated_moves_fit(self, requested: Seq<Piece>, n: int, mv: Move)
        requires
            n <= 12,
            self.moves_of_below(requested, n).contains(mv),
        ensures
            requested.contains(mv.piece),
            mv.piece.color() == self.side(),
            mv.piece.ordinal() < n,
            self.targets(mv.piece, mv.from.index()).contains(mv.to.index()),
            mv == self.move_to(mv.piece, mv.from.index(), mv.to.index()),
            self.admits(mv),
        decreases n,
    {
        let moves = self.moves_of_below(requested, n);
        let i = choose|i: int| 0 <= i < moves.len() && moves[i] == mv;
        let rest = self.moves_of_below(requested, n - 1);
        let piece = Piece::at(n - 1);
        if piece.color() == self.side() && requested.contains(piece) && i >= rest.len() {
            let last = self.moves_from_below(piece, 64);
            assert(last[i - rest.len()] == mv);
            self.lemma_moves_from_below(piece, 64, mv);
            Piece::lemma_at_ordinal(n - 1);
        } else {
            assert(rest[i] == mv);
            self.lemma_generated_moves_fit(requested, n - 1, mv);
        }
    }

    /// The squares that `piece` can go to from `from`.
    pub fn get_targets(&self, piece: Piece, from: Square) -> (targets: BitBoard)
        ensures
            targets@ == self.targets(piece, from.index()),
    {
        let own_bb = self.all[self.get_side_to_move().get_index()];
        let opposite_bb = self.all[self.opposite_side().get_index()];
        let raw = match piece {
            Piece::WhiteKing | Piece::BlackKing => king_moves(from),
            Piece::WhiteKnight | Piece::BlackKnight => knight_moves(from),
            Piece::WhitePawn => white_pawn_moves(from, self.occupied, opposite_bb),
            Piece::BlackPawn => black_pawn_moves(from, self.occupied, opposite_bb),
            Piece::WhiteBishop | Piece::BlackBishop => bishop_moves(from, self.occupied),
            Piece::WhiteRook | Piece::BlackRook => rook_moves(from, self.occupied),
            Piece::WhiteQueen | Piece::BlackQueen => queen_moves(from, self.occupied),
        };
        let targets = raw & own_bb.not();
        proof {
            raw.lemma_view(raw);
            assert(targets@ =~= self.targets(piece, from.index()));
        }
        targets
    }

    /// Appends the moves of `piece` from `from`, by rising destination.
    fn push_moves_from(&self, piece: Piece, from: Square, moves_list: &mut Vec<Move>)
        ensures
            final(moves_list)@ == old(moves_list)@ + self.moves_to_below(piece, from.index(), 64),
    {
        let opposite_bb = self.all[self.opposite_side().get_index()];
        let mut moves_bb = self.get_targets(piece, from);
        let ghost done: int = 0;
        proof {
            moves_bb.lemma_view(moves_bb);
            from.lemma_index_range();
            assert(old(moves_list)@ + self.moves_to_below(piece, from.index(), 0) =~= old(
                moves_list,
            )@);
        }
        while !moves_bb.is_zero()
            invariant
                0 <= done <= 64,
                opposite_bb@ == self.color_set(self.side().opposite_spec()),
                forall|t: int| #[trigger]
                    moves_bb@.contains(t) ==> self.targets(piece, from.index()).contains(t)
                        && done <= t,
                forall|t: int| #[trigger]
                    self.targets(piece, from.index()).contains(t) && done <= t
                        ==> moves_bb@.contains(t),
                forall|t: int| #[trigger]
                    self.targets(piece, from.index()).contains(t) ==> 0 <= t < 64,
                moves_list@ == old(moves_list)@ + self.moves_to_below(
                    piece,
                    from.index(),
                    done,
                ),
            decreases moves_bb@.len(),
        {
            let to_bb = moves_bb.get_ls1b();
            assert(to_bb@.contains(lowest(moves_bb@)));
            let to_square: Square = to_bb.get_index();
            let is_capture = opposite_bb.contains(to_bb);
            let mv = Move::new(from, to_square, None, piece, is_capture);
            proof {
                let to = to_square.index();
                to_square.lemma_index_range();
                assert(to == lowest(moves_bb@));
                assert(to_bb@.subset_of(opposite_bb@) == opposite_bb@.contains(to));
                self.lemma_moves_to_skip(piece, from.index(), done, to);
                assert(mv == self.move_to(piece, from.index(), to));
                assert(self.moves_to_below(piece, from.index(), to + 1) == self.moves_to_below(
                    piece,
                    from.index(),
                    to,
                ).push(mv));
                done = to + 1;
            }
            moves_list.push(mv);
            moves_bb = moves_bb.reset_ls1b();
            proof {
                assert(moves_list@ =~= old(moves_list)@ + self.moves_to_below(
                    piece,
                    from.index(),
                    done,
                ));
            }
        }
        proof {
            self.lemma_moves_to_skip(piece, from.index(), done, 64);
        }
    }

    /// Appends the moves of every piece `piece` on the board, by rising source.
    fn push_moves_of(&self, piece: Piece, moves_list: &mut Vec<Move>)
        ensures
            final(moves_list)@ == old(moves_list)@ + self.moves_from_below(piece, 64),
    {
        let mut pieces_bb = self.pieces[piece.get_index()];
        let ghost done: int = 0;
        proof {
            pieces_bb.lemma_view(pieces_bb);
            assert(old(moves_list)@ + self.moves_from_below(piece, 0) =~= old(moves_list)@);
        }
        while !pieces_bb.is_zero()
            invariant
                0 <= done <= 64,
                forall|s: int| #[trigger]
                    pieces_bb@.contains(s) ==> self.piece_set(piece).contains(s) && done <= s,
                forall|s: int| #[trigger]
                    self.piece_set(piece).contains(s) && done <= s ==> pieces_bb@.contains(s),
                forall|s: int| #[trigger] self.piece_set(piece).contains(s) ==> 0 <= s < 64,
                moves_list@ == old(moves_list)@ + self.moves_from_below(piece, done),
            decreases pieces_bb@.len(),
        {
            let from_bb = pieces_bb.get_ls1b();
            assert(from_bb@.contains(lowest(pieces_bb@)));
            let from_square: Square = from_bb.get_index();
            let ghost before = moves_list@;
            proof {
                let from = from_square.index();
                assert(from == lowest(pieces_bb@));
                self.lemma_moves_from_skip(piece, done, from);
                assert(self.moves_from_below(piece, from + 1) == self.moves_from_below(piece, from)
                    + self.moves_to_below(piece, from, 64));
                done = from + 1;
            }
            self.push_moves_from(piece, from_square, moves_list);
            pieces_bb = pieces_bb.reset_ls1b();
            proof {
                assert(moves_list@ =~= old(moves_list)@ + self.moves_from_below(piece, done));
            }
        }
        proof {
            self.lemma_moves_from_skip(piece, done, 64);
        }
    }

    /// The pseudo-legal moves of the side to move with the pieces asked for: by rising
    /// piece identity, then by rising source square, then by rising destination square.
    /// A piece of the side that is not to move yields nothing.
    pub fn generate_moves_for(&self, pieces: &[Piece]) -> (moves_list: Vec<Move>)
        ensures
            moves_list@ == self.moves_for(pieces@),
            forall|i: int| 0 <= i < moves_list@.len() ==> self.admits(#[trigger] moves_list@[i]),
    {
        let mut moves_list: Vec<Move> = Vec::new();
        let side = self.get_side_to_move();
        let mut k: usize = 0;
        while k < 12
            invariant
                k <= 12,
                side == self.side(),
                moves_list@ == self.moves_of_below(pieces@, k as int),
            decreases 12 - k,
        {
            let moving_pieces = Piece::from_index(k);
            if moving_pieces.get_color() == side && is_requested(pieces, moving_pieces) {
                self.push_moves_of(moving_pieces, &mut moves_list);
            }
            k += 1;
        }
        proof {
            assert forall|i: int| 0 <= i < moves_list@.len() implies self.admits(
                #[trigger] moves_list@[i],
            ) by {
                self.lemma_generated_moves_fit(pieces@, 12, moves_list@[i]);
            }
        }
        moves_list
    }

    /// The pseudo-legal moves of the side to move with all its pieces.
    pub fn generate_moves(&self) -> (moves_list: Vec<Move>)
        ensures
            moves_list@ == self.moves_for(Piece::ALL_PIECES@),
            forall|i: int| 0 <= i < moves_list@.len() ==> self.admits(#[trigger] moves_list@[i]),
    {
        self.generate_moves_for(&Piece::ALL_PIECES)
    }
}

/// Whether `piece` is among `pieces`.
fn is_requested(pieces: &[Piece], piece: Piece) -> (found: bool)
    ensures
        found == pieces@.contains(piece),
{
    let mut i: usize = 0;
    while i < pieces.len()
        invariant
            i <= pieces@.len(),
            forall|j: int| 0 <= j < i ==> pieces@[j] != piece,
        decreases pieces@.len() - i,
    {
        if pieces[i] == piece {
            return true;
        }
        i += 1;
    }
    false
}

} // verus!
