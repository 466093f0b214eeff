use kaik::bitboard::BitBoard;
use kaik::board::Board;
use kaik::common::Piece;
use kaik::common::Piece::{BlackPawn, WhiteKing, WhiteKnight, WhitePawn};
use kaik::common::Square;
use kaik::common::Square::{
    A2, A3, A4, B1, B2, B3, B4, C1, C2, C3, C4, D2, D3, D4, E2, E3, E4, E7, F2, F3, F4, G1, G2, G3,
    G4, H2, H3, H4,
};
use kaik::movements::{
    bishop_moves, black_pawn_moves, king_moves, knight_moves, queen_moves, rook_moves,
    white_pawn_moves,
};
use kaik::moves::Move;

fn assert_well_formed(board: &Board) {
    let pieces = board.get_pieces();
    let all = board.get_all();
    let mut white = 0u64;
    let mut black = 0u64;
    for (i, set) in pieces.iter().enumerate() {
        for other in pieces.iter().skip(i + 1) {
            assert_eq!(set.0 & other.0, 0);
        }
        if i % 2 == 0 {
            white |= set.0;
        } else {
            black |= set.0;
        }
    }
    assert_eq!(all[0].0, white);
    assert_eq!(all[1].0, black);
    assert_eq!(board.get_occupied().0, white | black);
}

#[test]
fn test_invariant_initial_and_decoded() {
    assert_well_formed(&Board::initial_board());
    assert_well_formed(&Board::empty());
    let board = Board::from_fen("r3k2r/pp3ppp/2n5/3qp3/8/2N2N2/PPP2PPP/R2Q1RK1 b kq - 3 12").unwrap();
    assert_well_formed(&board);
}

#[test]
fn test_invariant_after_quiet_moves() {
    let mut board = Board::initial_board();
    board.update_by_move(Move::quiet(E2, E4, WhitePawn));
    assert_well_formed(&board);
    board.update_by_move(Move::quiet(G1, F3, WhiteKnight));
    assert_well_formed(&board);
    assert_eq!(board.get_piece_at(E4), Some(WhitePawn));
    assert_eq!(board.get_piece_at(E2), None);
    assert_eq!(board.get_piece_at(F3), Some(WhiteKnight));
    assert_eq!(board.get_piece_at(E7), Some(BlackPawn));
}

#[test]
fn test_invariant_after_generated_quiet_moves() {
    let board = Board::initial_board();
    for mv in board.generate_moves() {
        let mut next = board;
        next.update_by_move(mv);
        assert_well_formed(&next);
    }
}

#[test]
fn test_capture_exchanges_destination_in_occupancy() {
    let mut board = Board::from_fen("2k5/8/8/8/8/8/2Pp4/2K5 w - - 0 1").unwrap();
    board.update_by_move(Move::capture(C1, D2, WhiteKing));
    let pieces = board.get_pieces();
    let all = board.get_all();
    assert_eq!(pieces[WhiteKing as usize], BitBoard::from(D2));
    assert_eq!(pieces[BlackPawn as usize], BitBoard::empty());
    assert_eq!(pieces[WhitePawn as usize], BitBoard::from(C2));
    assert_eq!(all[0].0, pieces[WhiteKing as usize].0 | pieces[WhitePawn as usize].0);
    assert_eq!(all[1], pieces[Piece::BlackKing as usize]);
    // The occupancy had both squares of the move: both are exchanged.
    assert_eq!(board.get_occupied().0, (all[0].0 | all[1].0) & !BitBoard::from(D2).0);
    assert_eq!(board.get_piece_at(D2), Some(WhiteKing));
    assert_eq!(board.get_piece_at(C1), None);
}

#[test]
fn test_capture_by_piece_of_lower_ordinal() {
    let mut board = Board::from_fen("8/8/8/8/8/2p5/1P6/8 w - - 0 1").unwrap();
    board.update_by_move(Move::capture(B2, C3, WhitePawn));
    assert_eq!(board.as_fen(), "8/8/8/8/8/2P5/8/8 w KQkq - 0 1");
    assert_eq!(board.get_all()[1], BitBoard::empty());
    assert_eq!(board.get_all()[0], BitBoard::from(C3));
}

#[test]
fn test_round_trip() {
    let mut board = Board::initial_board();
    assert_eq!(Board::from_fen(&board.as_fen()), Ok(board));
    board.update_by_move(Move::quiet(B2, B3, WhitePawn));
    assert_eq!(Board::from_fen(&board.as_fen()), Ok(board));
    board.update_by_move(Move::quiet(B1, C3, WhiteKnight));
    assert_eq!(Board::from_fen(&board.as_fen()), Ok(board));
    let empty = Board::empty();
    assert_eq!(empty.as_fen(), "8/8/8/8/8/8/8/8 w KQkq - 0 1");
    assert_eq!(Board::from_fen(&empty.as_fen()), Ok(empty));
}

#[test]
fn test_round_trip_gives_white_the_move() {
    let board = Board::from_fen("2k5/2Pp4/8/8/8/8/8/2K5 b - - 0 1").unwrap();
    let again = Board::from_fen(&board.as_fen()).unwrap();
    assert_eq!(board.as_fen(), "2k5/2Pp4/8/8/8/8/8/2K5 w KQkq - 0 1");
    assert_eq!(again.get_pieces(), board.get_pieces());
    assert_ne!(again.get_side_to_move(), board.get_side_to_move());
}

#[test]
fn test_reset_lowest_bit_takes_one_square() {
    for word in [1u64, 0b1011_0000, 0x8000_0000_0000_0000, u64::MAX, 0x00ff_0000_0000_ff00] {
        let set = BitBoard(word);
        let rest = set.reset_ls1b();
        assert_eq!(rest.0.count_ones() + 1, set.0.count_ones());
        assert_eq!(rest.0 | set.get_ls1b().0, set.0);
        assert_eq!(rest.0 & set.get_ls1b().0, 0);
        assert_eq!(set.get_ls1b().0, 1u64 << word.trailing_zeros());
    }
}

#[test]
fn test_lowest_bit_of_empty_set() {
    let empty = BitBoard::empty();
    assert_eq!(empty.get_ls1b(), empty);
    assert_eq!(empty.reset_ls1b(), empty);
    assert!(empty.is_zero());
}

#[test]
fn test_initial_position_has_twenty_moves() {
    let board = Board::initial_board();
    let moves = board.generate_moves();
    assert_eq!(moves.len(), 20);
    assert!(moves.iter().all(|mv| !mv.is_capture()));
    assert_eq!(moves.iter().filter(|mv| mv.get_piece() == WhitePawn).count(), 16);
    assert_eq!(moves.iter().filter(|mv| mv.get_piece() == WhiteKnight).count(), 4);
    assert_eq!(
        moves,
        &[
            Move::quiet(A2, A3, WhitePawn),
            Move::quiet(A2, A4, WhitePawn),
            Move::quiet(B2, B3, WhitePawn),
            Move::quiet(B2, B4, WhitePawn),
            Move::quiet(C2, C3, WhitePawn),
            Move::quiet(C2, C4, WhitePawn),
            Move::quiet(D2, D3, WhitePawn),
            Move::quiet(D2, D4, WhitePawn),
            Move::quiet(E2, E3, WhitePawn),
            Move::quiet(E2, E4, WhitePawn),
            Move::quiet(F2, F3, WhitePawn),
            Move::quiet(F2, F4, WhitePawn),
            Move::quiet(G2, G3, WhitePawn),
            Move::quiet(G2, G4, WhitePawn),
            Move::quiet(H2, H3, WhitePawn),
            Move::quiet(H2, H4, WhitePawn),
            Move::quiet(B1, A3, WhiteKnight),
            Move::quiet(B1, C3, WhiteKnight),
            Move::quiet(G1, F3, WhiteKnight),
            Move::quiet(G1, H3, WhiteKnight),
        ]
    );
}

fn file_distance(from: u8, to: u8) -> u8 {
    (from % 8).abs_diff(to % 8)
}

fn rank_distance(from: u8, to: u8) -> u8 {
    (from / 8).abs_diff(to / 8)
}

fn squares_of(set: BitBoard) -> Vec<u8> {
    (0..64).filter(|&i| set.is_set(i)).collect()
}

#[test]
fn test_no_generator_wraps_round_the_edge() {
    let occupied = BitBoard(0x0042_1800_0024_8100);
    let everything = BitBoard(u64::MAX);
    for index in 0..64u8 {
        let from = Square::from_index(index);
        for to in squares_of(king_moves(from)) {
            assert!(file_distance(index, to) <= 1 && rank_distance(index, to) <= 1);
        }
        for to in squares_of(knight_moves(from)) {
            assert_eq!(file_distance(index, to) + rank_distance(index, to), 3);
            assert!(file_distance(index, to) >= 1 && rank_distance(index, to) >= 1);
        }
        for to in squares_of(white_pawn_moves(from, occupied, everything)) {
            assert!(file_distance(index, to) <= 1 && to > index);
        }
        for to in squares_of(black_pawn_moves(from, occupied, everything)) {
            assert!(file_distance(index, to) <= 1 && to < index);
        }
        for to in squares_of(bishop_moves(from, occupied)) {
            assert_eq!(file_distance(index, to), rank_distance(index, to));
        }
        for to in squares_of(rook_moves(from, occupied)) {
            assert!(file_distance(index, to) == 0 || rank_distance(index, to) == 0);
        }
        assert_eq!(
            queen_moves(from, occupied).0,
            bishop_moves(from, occupied).0 | rook_moves(from, occupied).0
        );
    }
}

#[test]
fn test_edge_squares_do_not_reach_the_other_edge() {
    // A king on h4 does not reach a5 or a4; one on a4 does not reach h3 or h4.
    assert_eq!(king_moves(Square::H4).0, 0x0000_00c0_40c0_0000);
    assert_eq!(king_moves(Square::A4).0, 0x0000_0003_0203_0000);
    assert_eq!(king_moves(Square::A1).0, 0x0000_0000_0000_0302);
    assert_eq!(king_moves(Square::H8).0, 0x40c0_0000_0000_0000);
    // A knight in a corner has two squares.
    assert_eq!(knight_moves(Square::A1).0, 0x0000_0000_0002_0400);
    assert_eq!(knight_moves(Square::H1).0, 0x0000_0000_0040_2000);
    assert_eq!(knight_moves(Square::H8).0, 0x0020_4000_0000_0000);
    // A pawn on the a file takes on the b file only, one on the h file on the g file only.
    let everything = BitBoard(u64::MAX);
    assert_eq!(white_pawn_moves(Square::A2, everything, everything).0, 1u64 << 17);
    assert_eq!(white_pawn_moves(Square::H2, everything, everything).0, 1u64 << 22);
    assert_eq!(black_pawn_moves(Square::A7, everything, everything).0, 1u64 << 41);
    assert_eq!(black_pawn_moves(Square::H7, everything, everything).0, 1u64 << 46);
    // A pawn on the last rank goes nowhere.
    assert_eq!(white_pawn_moves(Square::A8, BitBoard::empty(), everything).0, 0);
    assert_eq!(black_pawn_moves(Square::H1, BitBoard::empty(), everything).0, 0);
    // A rook in a corner of an empty board sees its file and its rank.
    assert_eq!(rook_moves(Square::A1, BitBoard::empty()).0, 0x0101_0101_0101_01fe);
    assert_eq!(rook_moves(Square::H8, BitBoard::empty()).0, 0x7f80_8080_8080_8080);
    // A bishop in a corner of an empty board sees the long diagonal.
    assert_eq!(bishop_moves(Square::A1, BitBoard::empty()).0, 0x8040_2010_0804_0200);
    assert_eq!(bishop_moves(Square::H1, BitBoard::empty()).0, 0x0102_0408_1020_4000);
}
