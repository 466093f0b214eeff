use kaik::bitboard::BitBoard;
use kaik::board::{get_all_bitboards, get_occupied_bitboard, Board};
use kaik::common::Piece::{
    BlackPawn, WhiteBishop, WhiteKing, WhiteKnight, WhitePawn, WhiteQueen, WhiteRook,
};
use kaik::common::Square;
use kaik::common::Square::{A1, A8, B1, B2, B3, C1, C2, C3, C4, D1, D4, E1, H8};
use kaik::constants::{BLACK_PAWNS, WHITE_KING, WHITE_PAWNS};
use kaik::movements::ray_moves;
use kaik::moves::Move;

#[test]
fn test_bit_operations() {
    let a = BitBoard(0b1100);
    let b = BitBoard(0b1010);
    assert_eq!(a & b, BitBoard(0b1000));
    assert_eq!(a | b, BitBoard(0b1110));
    assert_eq!(a ^ b, BitBoard(0b0110));
    assert_eq!(!a, BitBoard(!0b1100u64));
    assert_eq!(a << 2, BitBoard(0b110000));
    assert_eq!(a >> 2, BitBoard(0b11));
    assert_eq!(BitBoard(1 << 63) << 1, BitBoard(0));
    assert_eq!(BitBoard(1) >> 1, BitBoard(0));
    assert_eq!(a << 0, a);
    let mut c = a;
    c &= b;
    assert_eq!(c, BitBoard(0b1000));
    c |= BitBoard(1);
    assert_eq!(c, BitBoard(0b1001));
    c ^= BitBoard(0b1111);
    assert_eq!(c, BitBoard(0b0110));
}

#[test]
fn test_membership() {
    let mut set = BitBoard::empty();
    assert!(set.is_zero());
    assert!(!set.is_set(0));
    set.set(0);
    set.set(63);
    set.set(63);
    assert!(set.is_set(0) && set.is_set(63) && !set.is_set(1) && !set.is_set(62));
    assert_eq!(set.0, 0x8000_0000_0000_0001);
    assert!(!set.is_zero());
    assert!(set.contains(BitBoard::from(H8)));
    assert!(set.contains(set));
    assert!(set.contains(BitBoard::empty()));
    assert!(!set.contains(BitBoard(3)));
    assert!(!BitBoard::empty().contains(BitBoard::from(A1)));
    assert_eq!(BitBoard::from(7u64), BitBoard(7));
}

#[test]
fn test_lowest_square() {
    assert_eq!(BitBoard(0b1011_0000).get_ls1b(), BitBoard(0b0001_0000));
    assert_eq!(BitBoard(0b1011_0000).reset_ls1b(), BitBoard(0b1010_0000));
    assert_eq!(BitBoard(0b1011_0000).get_index(), Square::E1);
    assert_eq!(BitBoard(1 << 63).get_index(), H8);
    assert_eq!(BitBoard(u64::MAX).get_index(), A1);
    assert_eq!(BitBoard(1 << 63).reset_ls1b(), BitBoard::empty());
}

#[test]
fn test_aggregates() {
    let pieces = [BitBoard(1), BitBoard(2), BitBoard(4), BitBoard(8), BitBoard(16)];
    let all = get_all_bitboards(&pieces);
    assert_eq!(all, [BitBoard(21), BitBoard(10)]);
    assert_eq!(get_occupied_bitboard(&all), BitBoard(31));
    assert_eq!(get_all_bitboards(&[]), [BitBoard::empty(); 2]);
    let board = Board::initial_board();
    assert_eq!(board.get_all(), [BitBoard(0xffff), BitBoard(0xffff_0000_0000_0000)]);
    assert_eq!(board.get_occupied(), BitBoard(0xffff_0000_0000_ffff));
    assert_eq!(board.get_pieces()[WhitePawn as usize], BitBoard(WHITE_PAWNS));
    assert_eq!(board.get_pieces()[BlackPawn as usize], BitBoard(BLACK_PAWNS));
    assert_eq!(board.get_pieces()[WhiteKing as usize], BitBoard(WHITE_KING));
    assert_eq!(board.get_pieces()[WhiteKing as usize], BitBoard::from(E1));
}

#[test]
fn test_moves_are_records() {
    let quiet = Move::quiet(B2, B3, WhitePawn);
    assert_eq!(quiet, Move::new(B2, B3, None, WhitePawn, false));
    assert_eq!(quiet.get_from(), B2);
    assert_eq!(quiet.get_to(), B3);
    assert_eq!(quiet.get_piece(), WhitePawn);
    assert_eq!(quiet.get_promotion(), None);
    assert!(!quiet.is_capture());
    let capture = Move::capture(B2, C3, WhitePawn);
    assert_eq!(capture, Move::new(B2, C3, None, WhitePawn, true));
    assert!(capture.is_capture());
    assert_ne!(quiet, capture);
    assert!(quiet < capture);
    let promotion = Move::new(B2, B3, Some(WhiteQueen), WhitePawn, false);
    assert_eq!(promotion.get_promotion(), Some(WhiteQueen));
    assert!(quiet < promotion);
}

#[test]
fn test_rook_stops_at_the_first_piece() {
    let board = Board::from_fen("8/8/8/8/8/1p6/8/1R2K3 w - - 0 1").unwrap();
    let moves = board.generate_moves_for(&[WhiteRook]);
    assert_eq!(
        moves,
        &[
            Move::quiet(B1, A1, WhiteRook),
            Move::quiet(B1, C1, WhiteRook),
            Move::quiet(B1, D1, WhiteRook),
            Move::quiet(B1, B2, WhiteRook),
            Move::capture(B1, B3, WhiteRook),
        ]
    );
}

#[test]
fn test_bishop_and_queen() {
    let board = Board::from_fen("8/8/8/8/8/8/8/B7 w - - 0 1").unwrap();
    let moves = board.generate_moves_for(&[WhiteBishop]);
    assert_eq!(moves.len(), 7);
    assert_eq!(moves[0], Move::quiet(A1, B2, WhiteBishop));
    assert_eq!(moves[6], Move::quiet(A1, H8, WhiteBishop));
    let board = Board::from_fen("8/8/8/8/3Q4/8/8/8 w - - 0 1").unwrap();
    let moves = board.generate_moves_for(&[WhiteQueen]);
    assert_eq!(moves.len(), 27);
    assert_eq!(moves[0], Move::quiet(D4, A1, WhiteQueen));
    assert_eq!(moves[26], Move::quiet(D4, H8, WhiteQueen));
}

#[test]
fn test_ray_moves() {
    let occupied = BitBoard::from(C3);
    assert_eq!(ray_moves(A1, occupied, 1, 1), BitBoard(1 << 9 | 1 << 18));
    assert_eq!(ray_moves(A1, occupied, -1, 0), BitBoard::empty());
    assert_eq!(ray_moves(A1, occupied, 0, 1), BitBoard(0x0101_0101_0101_0100));
    assert_eq!(ray_moves(A8, occupied, 1, -1), BitBoard(0x0002_0408_1020_4080));
    assert_eq!(ray_moves(C3, occupied, 0, 0), BitBoard::from(C3));
    assert_eq!(ray_moves(C4, occupied, 0, 0), BitBoard::from(C4));
}

#[test]
fn test_only_the_side_to_move_moves() {
    let board = Board::from_fen("2k5/8/8/8/8/8/2Pp4/2K5 w - - 0 1").unwrap();
    assert_eq!(board.generate_moves_for(&[BlackPawn]), &[]);
    assert_eq!(board.generate_moves_for(&[]), &[]);
    let board = Board::from_fen("2k5/8/8/8/8/8/2Pp4/2K5 b - - 0 1").unwrap();
    assert_eq!(board.generate_moves_for(&[WhiteKing, WhitePawn]), &[]);
    assert_eq!(
        board.generate_moves_for(&[BlackPawn]),
        &[Move::capture(Square::D2, C1, BlackPawn), Move::quiet(Square::D2, D1, BlackPawn)]
    );
}

#[test]
fn test_moves_come_by_piece_identity() {
    let board = Board::from_fen("2k5/8/8/8/8/8/2Pp4/2K5 w - - 0 1").unwrap();
    let expected = [
        Move::quiet(C2, C3, WhitePawn),
        Move::quiet(C2, C4, WhitePawn),
        Move::quiet(C1, B1, WhiteKing),
        Move::quiet(C1, D1, WhiteKing),
        Move::quiet(C1, B2, WhiteKing),
        Move::capture(C1, Square::D2, WhiteKing),
    ];
    assert_eq!(board.generate_moves_for(&[WhiteKing, WhitePawn]), &expected);
    assert_eq!(board.generate_moves_for(&[WhitePawn, WhiteKing, WhitePawn]), &expected);
    assert_eq!(board.generate_moves_for(&[WhiteKnight, BlackPawn]), &[]);
    assert_eq!(board.get_targets(WhiteKing, C1), BitBoard(1 << 1 | 1 << 3 | 1 << 9 | 1 << 11));
}
