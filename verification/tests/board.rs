use kaik::bitboard::BitBoard;
use kaik::board::Board;
use kaik::common::Piece::{WhiteKing, WhitePawn};
use kaik::common::Square::{B1, B2, B3, C1, C2, C3, C4, D1, D2};
use kaik::fen::START_POSITION;
use kaik::moves::Move;

#[test]
fn test_initial_board() {
    let board = Board::initial_board();
    assert_eq!(board.get_pieces().len(), 12);
    assert_eq!(board.get_all().len(), 2);

    let via_fen: Board = START_POSITION.try_into().unwrap();
    assert_eq!(board, via_fen);
}

#[test]
fn test_empty_board() {
    let board = Board::empty();
    assert_eq!(board.get_pieces(), [BitBoard::empty(); 12]);
    assert_eq!(board.get_all(), [BitBoard::empty(); 2]);
    assert_eq!(board.get_occupied(), BitBoard::empty());
}

#[test]
fn test_from_fen() {
    let board: Board = START_POSITION.try_into().unwrap();
    assert_eq!(board.get_pieces().len(), 12);
    assert_eq!(board.get_all().len(), 2);

    let initial_board = Board::initial_board();
    assert_eq!(board, initial_board);
}

#[test]
fn test_update_by_move_quiet() {
    let mut board = Board::initial_board();
    let mv = Move::quiet(B2, B3, WhitePawn);
    board.update_by_move(mv);

    assert_eq!(
        board.as_fen(),
        "rnbqkbnr/pppppppp/8/8/8/1P6/P1PPPPPP/RNBQKBNR w KQkq - 0 1"
    );
}

#[test]
fn test_update_by_move_capture() {
    let mut board: Board = "2k5/8/8/8/8/8/2Pp4/2K5 w - - 0 1".try_into().unwrap();
    let mv = Move::capture(C1, D2, WhiteKing);
    board.update_by_move(mv);
    assert_eq!(board.as_fen(), "2k5/8/8/8/8/8/2PK4/8 w KQkq - 0 1");
}

#[test]
fn test_generate_moves() {
    let board: Board = "2k5/8/8/8/8/8/2Pp4/2K5 w - - 0 1".try_into().unwrap();
    let moves = board.generate_moves();
    // The pawn comes before the king in the order of the piece identities.
    assert_eq!(
        moves,
        &[
            Move::quiet(C2, C3, WhitePawn),
            Move::quiet(C2, C4, WhitePawn),
            Move::quiet(C1, B1, WhiteKing),
            Move::quiet(C1, D1, WhiteKing),
            Move::quiet(C1, B2, WhiteKing),
            Move::capture(C1, D2, WhiteKing),
        ]
    );
    assert_eq!(
        moves[2..],
        [
            Move::quiet(C1, B1, WhiteKing),
            Move::quiet(C1, D1, WhiteKing),
            Move::quiet(C1, B2, WhiteKing),
            Move::capture(C1, D2, WhiteKing),
        ]
    );
}
