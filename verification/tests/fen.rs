use chess_core::position::Position;
use chess_core::square::NO_SQUARE;
use chess_core::text::{chars_of, draw_board, find_field_end, parse_int, push_int};
use chess_core::things::{Color, Piece, BLACK_OO, BLACK_OOO, WHITE_OO, WHITE_OOO};

const START: &str = "rnbqkbnr/pppppppp/8/8/8/8/PPPPPPPP/RNBQKBNR w KQkq - 0 1";

#[test]
fn fen_of_the_start_position() {
    let pos = Position::parse_fen(START).expect("a good text");
    assert_eq!(pos.piece_on(0), Piece::Rook);
    assert_eq!(pos.color_on(0), Color::White);
    assert_eq!(pos.piece_on(60), Piece::King);
    assert_eq!(pos.color_on(60), Color::Black);
    assert_eq!(pos.piece_on(8), Piece::Pawn);
    assert_eq!(pos.piece_on(55), Piece::Pawn);
    assert_eq!(pos.color_on(55), Color::Black);
    assert_eq!(pos.piece_on(32), Piece::NoPiece);
    assert_eq!(pos.us(), Color::White);
    assert_eq!(pos.castle_rights(), WHITE_OO | WHITE_OOO | BLACK_OO | BLACK_OOO);
    assert_eq!(pos.ep_square(), NO_SQUARE);
    assert_eq!(pos.halfmove_clock(), 0);
    assert_eq!(pos.fullmove_number(), 1);
    assert_eq!(pos.to_fen(), START);
}

#[test]
fn fen_fields() {
    let pos = Position::parse_fen("4k3/8/8/8/3Pp3/8/8/4K2R b K d3 12 34").expect("a good text");
    assert_eq!(pos.us(), Color::Black);
    assert_eq!(pos.castle_rights(), WHITE_OO);
    assert_eq!(pos.ep_square(), 19);
    assert_eq!(pos.halfmove_clock(), 12);
    assert_eq!(pos.fullmove_number(), 34);
    assert_eq!(pos.piece_on(27), Piece::Pawn);
    assert_eq!(pos.color_on(27), Color::White);
    assert_eq!(pos.piece_on(28), Piece::Pawn);
    assert_eq!(pos.color_on(28), Color::Black);
    assert_eq!(pos.piece_on(7), Piece::Rook);
    let pos = Position::parse_fen("4k3/8/8/8/8/8/8/4K3 w Qk - 0 1").expect("a good text");
    assert_eq!(pos.castle_rights(), WHITE_OOO | BLACK_OO);
    let pos = Position::parse_fen("4k3/8/8/8/8/8/8/4K3 w q - 0 1").expect("a good text");
    assert_eq!(pos.castle_rights(), BLACK_OOO);
    let pos = Position::parse_fen("4k3/8/8/8/8/8/8/4K3 w - - 0 1").expect("a good text");
    assert_eq!(pos.castle_rights(), 0);
    assert_eq!(pos.ep_square(), NO_SQUARE);
}

#[test]
fn fen_round_trips() {
    let fens = [
        START,
        "r3k2r/p1ppqpb1/bn2pnp1/3PN3/1p2P3/2N2Q1p/PPPBBPPP/R3K2R w KQkq - 0 1",
        "8/2p5/3p4/KP5r/1R3p1k/8/4P1P1/8 w - - 0 1",
        "r3k2r/Pppp1ppp/1b3nbN/nP6/BBP1P3/q4N2/Pp1P2PP/R2Q1RK1 w kq - 0 1",
        "rnbq1k1r/pp1Pbppp/2p5/8/2B5/8/PPP1NnPP/RNBQK2R w KQ - 1 8",
        "r4rk1/1pp1qppp/p1np1n2/2b1p1B1/2B1P1b1/P1NP1N2/1PP1QPPP/R4RK1 w - - 0 10",
        "rnbqkbnr/ppp1pppp/8/3pP3/8/8/PPPP1PPP/RNBQKBNR w KQkq d6 0 3",
        "4k3/8/8/8/8/8/8/4K3 b - - 99 1234",
        "8/8/8/8/8/8/8/8 w - - 0 0",
        "4k3/8/8/8/8/8/8/4K3 w - - -5 2147483647",
        "4k3/8/8/8/8/8/8/4K3 w - h8 -2147483648 7",
    ];
    for fen in fens {
        let pos = Position::parse_fen(fen).expect("a good text");
        assert_eq!(pos.to_fen(), fen);
        let again = Position::parse_fen(&pos.to_fen()).expect("a good text");
        assert!(again == pos);
    }
}

#[test]
fn from_fen_replaces_the_position() {
    let mut pos = Position::new();
    pos.from_fen("rnbqkbnr/ppp1pppp/8/3pP3/8/8/PPPP1PPP/RNBQKBNR w KQkq d6 0 3");
    assert_eq!(pos.ep_square(), 43);
    pos.from_fen(START);
    assert_eq!(pos.ep_square(), NO_SQUARE);
    assert_eq!(pos.to_fen(), START);
    assert!(pos == Position::parse_fen(START).expect("a good text"));
}

#[test]
fn lenient_fen_fields() {
    // Side in upper case, castle letters in any order, a sign before a
    // counter, more than six fields.
    let pos = Position::parse_fen("4k3/8/8/8/8/8/8/4K3 B kKx - +7 08 and more")
        .expect("a good text");
    assert_eq!(pos.us(), Color::Black);
    assert_eq!(pos.castle_rights(), WHITE_OO | BLACK_OO);
    assert_eq!(pos.halfmove_clock(), 7);
    assert_eq!(pos.fullmove_number(), 8);
    // Digits may be split, and a rank may be short.
    let pos = Position::parse_fen("4k3/44/8/8/8/8/8/4K w - - 0 1").expect("a good text");
    assert_eq!(pos.piece_on(60), Piece::King);
    assert_eq!(pos.piece_on(4), Piece::King);
    assert_eq!(pos.occupancy(), (1 << 60) | (1 << 4));
}

#[test]
fn malformed_fen_is_refused() {
    // Too few fields.
    assert!(Position::parse_fen("").is_none());
    assert!(Position::parse_fen("8/8/8/8/8/8/8/8").is_none());
    assert!(Position::parse_fen("8/8/8/8/8/8/8/8 w - - 0").is_none());
    // An unknown piece letter.
    assert!(Position::parse_fen("8/8/8/8/8/8/8/7x w - - 0 1").is_none());
    // A piece beyond the board.
    assert!(Position::parse_fen("rnbqkbnrr/8/8/8/8/8/8/8 w - - 0 1").is_none());
    // More than eight ranks.
    assert!(Position::parse_fen("8/8/8/8/8/8/8/8/K w - - 0 1").is_none());
    // Two pieces on one square: the second rank runs over into the third.
    assert!(Position::parse_fen("8/8/8/8/8/K7/8K/8 w - - 0 1").is_none());
    // An unknown side.
    assert!(Position::parse_fen("8/8/8/8/8/8/8/8 x - - 0 1").is_none());
    assert!(Position::parse_fen("8/8/8/8/8/8/8/8  - - 0 1").is_none());
    // A bad en passant square.
    assert!(Position::parse_fen("8/8/8/8/8/8/8/8 w - e9 0 1").is_none());
    assert!(Position::parse_fen("8/8/8/8/8/8/8/8 w - i3 0 1").is_none());
    assert!(Position::parse_fen("8/8/8/8/8/8/8/8 w - e 0 1").is_none());
    assert!(Position::parse_fen("8/8/8/8/8/8/8/8 w -  0 1").is_none());
    // Bad counters.
    assert!(Position::parse_fen("8/8/8/8/8/8/8/8 w - - x 1").is_none());
    assert!(Position::parse_fen("8/8/8/8/8/8/8/8 w - - 0 ").is_none());
    assert!(Position::parse_fen("8/8/8/8/8/8/8/8 w - - 0 -").is_none());
    assert!(Position::parse_fen("8/8/8/8/8/8/8/8 w - - 0 1x").is_none());
    assert!(Position::parse_fen("8/8/8/8/8/8/8/8 w - - 2147483648 1").is_none());
    assert!(Position::parse_fen("8/8/8/8/8/8/8/8 w - - 0 -2147483649").is_none());
}

#[test]
fn board_drawing_with_pieces() {
    let pos = Position::parse_fen("4k3/8/8/8/8/8/P7/4K3 w - - 0 1").expect("a good text");
    let expected = "\n     A   B   C   D   E   F   G   H\n   +---+---+---+---+---+---+---+---+\n 8 |   |   |   |   | k |   |   |   |\n   +---+---+---+---+---+---+---+---+\n 7 |   |   |   |   |   |   |   |   |\n   +---+---+---+---+---+---+---+---+\n 6 |   |   |   |   |   |   |   |   |\n   +---+---+---+---+---+---+---+---+\n 5 |   |   |   |   |   |   |   |   |\n   +---+---+---+---+---+---+---+---+\n 4 |   |   |   |   |   |   |   |   |\n   +---+---+---+---+---+---+---+---+\n 3 |   |   |   |   |   |   |   |   |\n   +---+---+---+---+---+---+---+---+\n 2 | P |   |   |   |   |   |   |   |\n   +---+---+---+---+---+---+---+---+\n 1 |   |   |   |   | K |   |   |   |\n   +---+---+---+---+---+---+---+---+\n4k3/8/8/8/8/8/P7/4K3 w - - 0 1";
    assert_eq!(pos.board_text(), expected);
}

#[test]
fn reading_characters_and_fields() {
    assert_eq!(chars_of("a b"), vec!['a', ' ', 'b']);
    assert_eq!(chars_of(""), Vec::<char>::new());
    let chars = chars_of("ab cd  e");
    assert_eq!(find_field_end(&chars, 0), 2);
    assert_eq!(find_field_end(&chars, 2), 2);
    assert_eq!(find_field_end(&chars, 3), 5);
    assert_eq!(find_field_end(&chars, 6), 6);
    assert_eq!(find_field_end(&chars, 7), 8);
    assert_eq!(find_field_end(&chars, 8), 8);
}

#[test]
fn reading_numbers() {
    let read = |text: &str| {
        let chars = chars_of(text);
        parse_int(&chars, 0, chars.len())
    };
    assert_eq!(read("0"), Some(0));
    assert_eq!(read("7"), Some(7));
    assert_eq!(read("007"), Some(7));
    assert_eq!(read("+15"), Some(15));
    assert_eq!(read("-15"), Some(-15));
    assert_eq!(read("-0"), Some(0));
    assert_eq!(read("2147483647"), Some(i32::MAX));
    assert_eq!(read("-2147483648"), Some(i32::MIN));
    assert_eq!(read("2147483648"), None);
    assert_eq!(read("-2147483649"), None);
    assert_eq!(read("99999999999999999999"), None);
    assert_eq!(read(""), None);
    assert_eq!(read("-"), None);
    assert_eq!(read("+"), None);
    assert_eq!(read("1a"), None);
    assert_eq!(read("a1"), None);
    assert_eq!(read("1 "), None);
    assert_eq!(read("--1"), None);
    let chars = chars_of("ab123cd");
    assert_eq!(parse_int(&chars, 2, 5), Some(123));
    assert_eq!(parse_int(&chars, 2, 2), None);
}

#[test]
fn writing_numbers() {
    let write = |n: i32| {
        let mut s = String::from("n=");
        push_int(&mut s, n);
        s
    };
    assert_eq!(write(0), "n=0");
    assert_eq!(write(7), "n=7");
    assert_eq!(write(10), "n=10");
    assert_eq!(write(1234), "n=1234");
    assert_eq!(write(-1), "n=-1");
    assert_eq!(write(-907), "n=-907");
    assert_eq!(write(i32::MAX), "n=2147483647");
    assert_eq!(write(i32::MIN), "n=-2147483648");
    for n in [0, 1, 9, 10, 11, 99, 100, 101, 65535, -65536, i32::MAX, i32::MIN] {
        assert_eq!(write(n), format!("n={}", n));
    }
}

#[test]
fn drawing_any_cells() {
    let cells: Vec<char> = (0..64).map(|_| '.').collect();
    let text = draw_board(&cells);
    assert_eq!(text.matches('.').count(), 64);
    assert_eq!(text.lines().count(), 19);
    assert!(text.starts_with("\n     A   B   C   D   E   F   G   H\n"));
    assert!(text.ends_with("|\n   +---+---+---+---+---+---+---+---+\n"));
}
