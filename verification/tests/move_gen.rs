use kaik::board::Board;
use kaik::common::Piece::{BlackKing, BlackPawn, WhiteKing, WhiteKnight, WhitePawn};
use kaik::common::Square::{
    A1, A3, A5, B1, B2, B3, B4, B5, B6, B7, B8, C1, C3, C5, C6, C7, C8, D1, D2, D4, D6, D8, E2, E3, E6,
    E7, F2, F3, F4, F5, F6, F7, G3, G4, G6, G7, H2, H3, H4, H5, H6, H7,
};
use kaik::moves::Move;

#[test]
fn test_generate_moves_white_king() {
    let board: Board = "2k5/8/8/8/8/8/2Pp4/2K5 w - - 0 1".try_into().unwrap();
    let moves = board.generate_moves_for(&[WhiteKing]);
    assert_eq!(
        moves,
        &[
            Move::quiet(C1, B1, WhiteKing),
            Move::quiet(C1, D1, WhiteKing),
            Move::quiet(C1, B2, WhiteKing),
            Move::capture(C1, D2, WhiteKing),
        ]
    );
}

#[test]
fn test_generate_moves_black_king() {
    let board: Board = "2k5/2Pp4/8/8/8/8/8/2K5 b - - 0 1".try_into().unwrap();
    let moves = board.generate_moves_for(&[BlackKing]);
    assert_eq!(
        moves,
        &[
            Move::quiet(C8, B7, BlackKing),
            Move::capture(C8, C7, BlackKing),
            Move::quiet(C8, B8, BlackKing),
            Move::quiet(C8, D8, BlackKing),
        ]
    );
}

#[test]
fn test_generate_moves_white_knight() {
    let board: Board = "8/8/6p1/5N2/8/1N6/8/8 w - - 0 1".try_into().unwrap();
    let moves = board.generate_moves_for(&[WhiteKnight]);
    assert_eq!(
        moves,
        &[
            Move::quiet(B3, A1, WhiteKnight),
            Move::quiet(B3, C1, WhiteKnight),
            Move::quiet(B3, D2, WhiteKnight),
            Move::quiet(B3, D4, WhiteKnight),
            Move::quiet(B3, A5, WhiteKnight),
            Move::quiet(B3, C5, WhiteKnight),
            Move::quiet(F5, E3, WhiteKnight),
            Move::quiet(F5, G3, WhiteKnight),
            Move::quiet(F5, D4, WhiteKnight),
            Move::quiet(F5, H4, WhiteKnight),
            Move::quiet(F5, D6, WhiteKnight),
            Move::quiet(F5, H6, WhiteKnight),
            Move::quiet(F5, E7, WhiteKnight),
            Move::quiet(F5, G7, WhiteKnight),
        ]
    );
}

#[test]
fn test_generate_moves_white_pawn() {
    let board: Board = "8/8/8/8/4N3/n1pB2P1/PPPPPPPP/8 w - - 0 1".try_into().unwrap();
    let moves = board.generate_moves_for(&[WhitePawn]);
    assert_eq!(
        moves,
        &[
            Move::capture(B2, A3, WhitePawn),
            Move::quiet(B2, B3, WhitePawn),
            Move::capture(B2, C3, WhitePawn),
            Move::quiet(B2, B4, WhitePawn),
            Move::capture(D2, C3, WhitePawn),
            Move::quiet(E2, E3, WhitePawn),
            Move::quiet(F2, F3, WhitePawn),
            Move::quiet(F2, F4, WhitePawn),
            Move::quiet(H2, H3, WhitePawn),
            Move::quiet(H2, H4, WhitePawn),
            Move::quiet(G3, G4, WhitePawn),
        ]
    );
}

#[test]
fn test_generate_moves_black_pawn() {
    let board: Board = "8/pppppppp/n1pB2P1/4N3/8/8/8/8 b - - 0 1".try_into().unwrap();
    let moves = board.generate_moves_for(&[BlackPawn]);
    assert_eq!(
        moves,
        &[
            Move::quiet(C6, C5, BlackPawn),
            Move::quiet(B7, B5, BlackPawn),
            Move::quiet(B7, B6, BlackPawn),
            Move::capture(C7, D6, BlackPawn),
            Move::capture(E7, D6, BlackPawn),
            Move::quiet(E7, E6, BlackPawn),
            Move::quiet(F7, F5, BlackPawn),
            Move::quiet(F7, F6, BlackPawn),
            Move::capture(F7, G6, BlackPawn),
            Move::quiet(H7, H5, BlackPawn),
            Move::capture(H7, G6, BlackPawn),
            Move::quiet(H7, H6, BlackPawn),
        ]
    );
}
