use chess_core::square::{file_of, make_sq, rank_of, sq_to_str, Squares, NO_SQUARE, NUM_SQUARES};
use chess_core::things::{
    color_from_char, is_piece_char, piece_from_char, piece_to_char, piece_to_str, Color, Piece,
    BLACK_OO, BLACK_OOO, NUM_COLORS, NUM_FILES, NUM_PIECES, NUM_RANKS, WHITE_OO, WHITE_OOO,
};

#[test]
fn rank_and_file_of_every_square() {
    for sq in 0..64u8 {
        assert_eq!(rank_of(sq), sq / 8);
        assert_eq!(file_of(sq), sq % 8);
        assert_eq!(make_sq(rank_of(sq), file_of(sq)), sq);
    }
    assert_eq!(rank_of(0), 0);
    assert_eq!(file_of(0), 0);
    assert_eq!(rank_of(63), 7);
    assert_eq!(file_of(63), 7);
    assert_eq!(rank_of(28), 3);
    assert_eq!(file_of(28), 4);
}

#[test]
fn make_sq_counts_rank_by_rank() {
    assert_eq!(make_sq(0, 0), 0);
    assert_eq!(make_sq(0, 7), 7);
    assert_eq!(make_sq(1, 0), 8);
    assert_eq!(make_sq(3, 4), 28);
    assert_eq!(make_sq(7, 7), 63);
}

#[test]
fn square_names_are_their_numbers() {
    assert_eq!(Squares::A1 as u8, 0);
    assert_eq!(Squares::H1 as u8, 7);
    assert_eq!(Squares::E1 as u8, 4);
    assert_eq!(Squares::G1 as u8, 6);
    assert_eq!(Squares::C8 as u8, 58);
    assert_eq!(Squares::H8 as u8, 63);
    assert_eq!(NUM_SQUARES, 64);
    assert_eq!(NO_SQUARE, 255);
}

#[test]
fn square_text() {
    assert_eq!(sq_to_str(0), "a1");
    assert_eq!(sq_to_str(7), "h1");
    assert_eq!(sq_to_str(28), "e4");
    assert_eq!(sq_to_str(63), "h8");
    assert_eq!(sq_to_str(NO_SQUARE), "-");
}

#[test]
fn piece_letters_in_either_case() {
    assert_eq!(piece_from_char('p'), Piece::Pawn);
    assert_eq!(piece_from_char('P'), Piece::Pawn);
    assert_eq!(piece_from_char('n'), Piece::Knight);
    assert_eq!(piece_from_char('B'), Piece::Bishop);
    assert_eq!(piece_from_char('r'), Piece::Rook);
    assert_eq!(piece_from_char('Q'), Piece::Queen);
    assert_eq!(piece_from_char('k'), Piece::King);
    assert!(is_piece_char('K'));
    assert!(!is_piece_char('x'));
    assert!(!is_piece_char('1'));
    assert!(!is_piece_char(' '));
}

#[test]
fn letter_case_gives_the_side() {
    assert_eq!(color_from_char('P'), Color::White);
    assert_eq!(color_from_char('K'), Color::White);
    assert_eq!(color_from_char('p'), Color::Black);
    assert_eq!(color_from_char('k'), Color::Black);
    assert_eq!(color_from_char('1'), Color::Black);
}

#[test]
fn piece_text() {
    assert_eq!(piece_to_str(Piece::Pawn, Color::White), "P");
    assert_eq!(piece_to_str(Piece::Knight, Color::White), "N");
    assert_eq!(piece_to_str(Piece::Bishop, Color::Black), "b");
    assert_eq!(piece_to_str(Piece::Rook, Color::Black), "r");
    assert_eq!(piece_to_str(Piece::Queen, Color::White), "Q");
    assert_eq!(piece_to_str(Piece::King, Color::Black), "k");
    assert_eq!(piece_to_str(Piece::King, Color::NoColor), "K");
    assert_eq!(piece_to_str(Piece::NoPiece, Color::NoColor), " ");
    assert_eq!(piece_to_str(Piece::NoPiece, Color::Black), " ");
    assert_eq!(piece_to_char(Piece::Queen, Color::Black), 'q');
}

#[test]
fn piece_letter_round_trip() {
    let pieces = [
        Piece::Pawn,
        Piece::Knight,
        Piece::Bishop,
        Piece::Rook,
        Piece::Queen,
        Piece::King,
    ];
    for piece in pieces {
        for color in [Color::White, Color::Black] {
            let c = piece_to_char(piece, color);
            assert_eq!(piece_from_char(c), piece);
            assert_eq!(color_from_char(c), color);
        }
    }
}

#[test]
fn indices_and_counts() {
    assert_eq!(Piece::Pawn.index(), 0);
    assert_eq!(Piece::Knight.index(), 1);
    assert_eq!(Piece::Bishop.index(), 2);
    assert_eq!(Piece::Rook.index(), 3);
    assert_eq!(Piece::Queen.index(), 4);
    assert_eq!(Piece::King.index(), 5);
    assert_eq!(Color::White.index(), 0);
    assert_eq!(Color::Black.index(), 1);
    assert_eq!(NUM_PIECES, 6);
    assert_eq!(NUM_COLORS, 2);
    assert_eq!(NUM_RANKS, 8);
    assert_eq!(NUM_FILES, 8);
    assert_eq!(WHITE_OO | WHITE_OOO | BLACK_OO | BLACK_OOO, 15);
    assert_eq!((WHITE_OO, WHITE_OOO, BLACK_OO, BLACK_OOO), (1, 2, 4, 8));
}
