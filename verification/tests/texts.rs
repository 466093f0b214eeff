use kaik::bitboard::BitBoard;
use kaik::board::Board;
use kaik::common::pieces::parse;
use kaik::common::Color;
use kaik::common::ParseError;
use kaik::common::Piece;
use kaik::common::Piece::{BlackKing, BlackQueen, WhiteKing, WhiteQueen};
use kaik::common::Square;
use kaik::fen;
use kaik::fen::START_POSITION;

#[test]
fn test_square_from_text() {
    assert_eq!(Square::try_from("e4"), Ok(Square::E4));
    assert_eq!(Square::try_from("E4"), Ok(Square::E4));
    assert_eq!(Square::try_from("a1"), Ok(Square::A1));
    assert_eq!(Square::try_from("H8"), Ok(Square::H8));
    assert_eq!(Square::try_from("h1"), Ok(Square::H1));
}

#[test]
fn test_square_from_wrong_text() {
    for text in ["", "e", "e44", "i4", "e9", "e0", "4e", "é4", " e4"] {
        assert_eq!(Square::try_from(text), Err(ParseError::InvalidSquareText));
    }
}

#[test]
fn test_square_to_text() {
    assert_eq!(Square::A1.to_text(), "a1");
    assert_eq!(Square::E4.to_text(), "e4");
    assert_eq!(Square::H8.to_text(), "h8");
    for index in 0..64u8 {
        let square = Square::from_index(index);
        assert_eq!(square.get_index(), index);
        assert_eq!(u8::from(square), index);
        assert_eq!(Square::try_from(square.to_text().as_str()), Ok(square));
        assert_eq!(usize::from(index / 8 + 1), square.get_rank());
    }
}

#[test]
fn test_piece_letters() {
    let letters = ['P', 'p', 'N', 'n', 'B', 'b', 'R', 'r', 'Q', 'q', 'K', 'k'];
    for (i, letter) in letters.iter().enumerate() {
        let piece = Piece::try_from(*letter).unwrap();
        assert_eq!(piece as usize, i);
        assert_eq!(piece, Piece::ALL_PIECES[i]);
        assert_eq!(piece, Piece::from_index(i));
        assert_eq!(piece.get_index(), i);
        assert_eq!(char::from(piece), *letter);
    }
}

#[test]
fn test_piece_from_wrong_letter() {
    for letter in ['x', '.', ' ', '1', 'A', 'é', '♙'] {
        assert_eq!(Piece::try_from(letter), Err(ParseError::InvalidPieceChar));
    }
}

#[test]
fn test_piece_colors() {
    for piece in Piece::ALL_PIECES {
        let expected = if piece as usize % 2 == 0 { Color::White } else { Color::Black };
        assert_eq!(piece.get_color(), expected);
        assert_eq!(piece.get_opposite() as usize, piece as usize ^ 1);
        assert_eq!(piece.get_opposite().get_color(), expected.opposite());
    }
    assert_eq!(Color::White.opposite(), Color::Black);
    assert_eq!(Color::Black.opposite(), Color::White);
    assert_eq!(Color::White.get_index(), 0);
    assert_eq!(Color::Black.get_index(), 1);
}

#[test]
fn test_piece_symbols() {
    let symbols = ['♙', '♟', '♘', '♞', '♗', '♝', '♖', '♜', '♕', '♛', '♔', '♚'];
    for (i, symbol) in symbols.iter().enumerate() {
        assert_eq!(Piece::ALL_PIECES[i].get_symbol(), *symbol);
    }
}

#[test]
fn test_parse_diagram() {
    let cells = parse("r . . k\n  P x 7 . Q");
    assert_eq!(
        cells,
        vec![
            Some(Piece::BlackRook),
            None,
            None,
            Some(Piece::BlackKing),
            Some(Piece::WhitePawn),
            None,
            Some(Piece::WhiteQueen),
        ]
    );
    assert_eq!(parse(""), vec![]);
    assert_eq!(parse("x y z 1 2"), vec![]);
}

#[test]
fn test_bitboard_from_grid_marks_squares() {
    let only_a8 = "10000000 00000000 00000000 00000000 00000000 00000000 00000000 00000000";
    assert_eq!(BitBoard::from_grid(only_a8), BitBoard::from(Square::A8));
    let only_h1 = "00000000 00000000 00000000 00000000 00000000 00000000 00000000 00000001";
    assert_eq!(BitBoard::from_grid(only_h1), BitBoard::from(Square::H1));
    let mut cells = [false; 64];
    cells[8] = true;
    assert_eq!(BitBoard::from_cells(&cells), BitBoard::from(Square::A7));
}

#[test]
fn test_parse_start_position() {
    let position = fen::parse(START_POSITION).unwrap();
    assert_eq!(position.piece_placement.len(), 64);
    assert_eq!(position.piece_placement[0], Some(Piece::BlackRook));
    assert_eq!(position.piece_placement[4], Some(Piece::BlackKing));
    assert_eq!(position.piece_placement[8], Some(Piece::BlackPawn));
    assert_eq!(position.piece_placement[16], None);
    assert_eq!(position.piece_placement[59], Some(Piece::WhiteQueen));
    assert_eq!(position.piece_placement[63], Some(Piece::WhiteRook));
    assert_eq!(position.side_to_move, Color::White);
    assert_eq!(position.castling_ability, vec![WhiteKing, WhiteQueen, BlackKing, BlackQueen]);
    assert_eq!(position.en_passant_target_square, None);
    assert_eq!(position.half_move_clock, 0);
    assert_eq!(position.full_move_counter, 1);
}

#[test]
fn test_parse_other_fields() {
    let text = "rnbqkbnr/pp1ppppp/8/2p5/4P3/5N2/PPPP1PPP/RNBQKB1R b Kq c6 12 4294967295";
    let position = fen::parse(text).unwrap();
    assert_eq!(position.side_to_move, Color::Black);
    assert_eq!(position.castling_ability, vec![WhiteKing, BlackQueen]);
    assert_eq!(position.en_passant_target_square, Some(Square::C6));
    assert_eq!(position.half_move_clock, 12);
    assert_eq!(position.full_move_counter, 4294967295);
    assert_eq!(position.piece_placement[26], Some(Piece::BlackPawn));
    assert_eq!(position.piece_placement[36], Some(Piece::WhitePawn));
    assert_eq!(position.piece_placement[45], Some(Piece::WhiteKnight));
    let again = fen::create(
        &position.piece_placement,
        position.side_to_move,
        &position.castling_ability,
        position.en_passant_target_square,
        position.half_move_clock,
        position.full_move_counter,
    );
    assert_eq!(again, text);
}

#[test]
fn test_create_text() {
    let mut cells = vec![None; 64];
    cells[0] = Some(Piece::BlackKing);
    cells[9] = Some(Piece::WhitePawn);
    cells[10] = Some(Piece::WhitePawn);
    cells[63] = Some(Piece::WhiteKing);
    let text = fen::create(&cells, Color::Black, &[], Some(Square::E3), 120, 7);
    assert_eq!(text, "k7/1PP5/8/8/8/8/8/7K b - e3 120 7");
    let text = fen::create(&cells, Color::White, &[BlackKing], None, 0, 10);
    assert_eq!(text, "k7/1PP5/8/8/8/8/8/7K w k - 0 10");
}

#[test]
fn test_wrong_position_texts() {
    let wrong_shape = [
        "",
        "8/8/8/8/8/8/8/8",
        "8/8/8/8/8/8/8/8 w - - 0",
        "8/8/8/8/8/8/8/8 w - - 0 1 ",
        "8/8/8/8/8/8/8/8  w - - 0 1",
        "8/8/8/8/8/8/8/8 w - - 0 1 2",
        "8/8/8/8/8/8/8 w - - 0 1",
        "8/8/8/8/8/8/8/8/8 w - - 0 1",
        "8/8/8/8/8/8/8/7 w - - 0 1",
        "8/8/8/8/8/8/8/44p w - - 0 1",
        "8/8/8/8/8/8/8/ w - - 0 1",
        "8/8/8/8/8/8/8/8 x - - 0 1",
        "8/8/8/8/8/8/8/8 W - - 0 1",
        "8/8/8/8/8/8/8/8 w  - 0 1",
        "8/8/8/8/8/8/8/8 w KP - 0 1",
        "8/8/8/8/8/8/8/8 w K- - 0 1",
        "8/8/8/8/8/8/8/8 w - - x 1",
        "8/8/8/8/8/8/8/8 w - - 0 -1",
        "8/8/8/8/8/8/8/8 w - - 0 4294967296",
        "8/8/8/8/8/8/8/8 w - - 0 99999999999999999999999",
    ];
    for text in wrong_shape {
        assert_eq!(Board::from_fen(text), Err(ParseError::InvalidPositionText));
        assert_eq!(Board::try_from(text), Err(ParseError::InvalidPositionText));
        assert!(fen::parse(text).is_err());
    }
    let wrong_piece = [
        "8/8/8/8/8/8/8/7x w - - 0 1",
        "8/8/8/8/8/8/8/0 w - - 0 1",
        "8/8/8/8/8/8/8/9 w - - 0 1",
        "8/8/3.4/8/8/8/8/8 w - - 0 1",
    ];
    for text in wrong_piece {
        assert_eq!(Board::from_fen(text), Err(ParseError::InvalidPieceChar));
    }
    // The number of fields is looked at first.
    assert_eq!(Board::from_fen("8/8/3.4/8/8/8/8/8 w"), Err(ParseError::InvalidPositionText));
    let wrong_square = ["8/8/8/8/8/8/8/8 w - e9 0 1", "8/8/8/8/8/8/8/8 w - e 0 1"];
    for text in wrong_square {
        assert_eq!(Board::from_fen(text), Err(ParseError::InvalidSquareText));
    }
    // The first field that is wrong decides.
    assert_eq!(
        Board::from_fen("8/8/8/8/8/8/8/7x w - e9 0 1"),
        Err(ParseError::InvalidPieceChar)
    );
    assert_eq!(
        Board::from_fen("8/8/8/8/8/8/8/8 x - e9 0 1"),
        Err(ParseError::InvalidPositionText)
    );
    // Within the placement the first rank that is wrong decides.
    assert_eq!(
        Board::from_fen("8/7/8/8/8/8/8/7x w - - 0 1"),
        Err(ParseError::InvalidPositionText)
    );
}

#[test]
fn test_split_at() {
    let text: Vec<char> = "a/bc//d/".chars().collect();
    let parts = fen::split_at(&text, '/');
    let parts: Vec<String> = parts.iter().map(|part| part.iter().collect()).collect();
    assert_eq!(parts, vec!["a", "bc", "", "d", ""]);
    assert_eq!(fen::split_at(&[], '/'), vec![Vec::<char>::new()]);
}

#[test]
fn test_from_placement() {
    let cells = parse(
        "rnbqkbnr
         pppppppp
         ........
         ........
         ........
         ........
         PPPPPPPP
         RNBQKBNR",
    );
    assert_eq!(Board::from_placement(&cells, Color::White), Board::initial_board());
    let board = Board::from_placement(&cells, Color::Black);
    assert_eq!(board.get_side_to_move(), Color::Black);
    assert_eq!(board.opposite_side(), Color::White);
    assert_eq!(board.get_placement(), cells);
    assert_eq!(board.get_pieces(), Board::initial_board().get_pieces());
}
