use kaik::common::Piece;

#[test]
fn test_order() {
    assert_eq!(Piece::WhitePawn as usize, 0);
    assert_eq!(Piece::BlackPawn as usize, 1);
    assert_eq!(Piece::WhiteKnight as usize, 2);
    assert_eq!(Piece::BlackKnight as usize, 3);
    assert_eq!(Piece::WhiteBishop as usize, 4);
    assert_eq!(Piece::BlackBishop as usize, 5);
    assert_eq!(Piece::WhiteRook as usize, 6);
    assert_eq!(Piece::BlackRook as usize, 7);
    assert_eq!(Piece::WhiteQueen as usize, 8);
    assert_eq!(Piece::BlackQueen as usize, 9);
    assert_eq!(Piece::WhiteKing as usize, 10);
    assert_eq!(Piece::BlackKing as usize, 11);
}
