use kaik::bitboard::BitBoard;
use kaik::common::Square;
use kaik::common::Square::{A7, B7, C7, D7, E7, F7, G7, H7};

#[test]
fn test_create_set() {
    let black_pawns: BitBoard = 71776119061217280.into();

    let mut b = BitBoard::empty();
    for square in [A7, B7, C7, D7, E7, F7, G7, H7] {
        b.set(square.into());
    }

    assert_eq!(b, black_pawns);
}

#[test]
fn test_from_str() {
    let not_a_file = r"0 1 1 1 1 1 1 1
            0 1 1 1 1 1 1 1
            0 1 1 1 1 1 1 1
            0 1 1 1 1 1 1 1
            0 1 1 1 1 1 1 1
            0 1 1 1 1 1 1 1
            0 1 1 1 1 1 1 1
            0 1 1 1 1 1 1 1";
    let bb: BitBoard = BitBoard::from_grid(not_a_file);
    assert_eq!(bb.0, 18374403900871474942);
}

#[test]
fn test_from_square() {
    let bb: BitBoard = Square::C3.into();
    assert_eq!(
        bb.0,
        0b0000_0000_0000_0000_0000_0000_0000_0000_0000_0000_0000_0100_0000_0000_0000_0000
    );
}
