use chess_core::attack;
use chess_core::bitboard;
use chess_core::bitboard::Tables;
use chess_core::moves::{
    mv_create_castle, mv_create_ep, mv_create_normal, mv_create_promo, MoveGen,
};
use chess_core::position::{Position, CASTLE_RIGHTS};
use chess_core::square::NO_SQUARE;
use chess_core::things::{Color, Piece};

const START: &str = "rnbqkbnr/pppppppp/8/8/8/8/PPPPPPPP/RNBQKBNR w KQkq - 0 1";

fn tables() -> Tables {
    bitboard::init(attack::init().expect("the multipliers are sound"))
}

fn position(fen: &str) -> Position {
    let mut pos = Position::new();
    pos.from_fen(fen);
    pos
}

#[test]
fn new_position_is_empty() {
    let pos = Position::new();
    assert_eq!(pos.occupancy(), 0);
    assert_eq!(pos.us(), Color::White);
    assert_eq!(pos.side, Color::White);
    assert_eq!(pos.castle, 0);
    assert_eq!(pos.ep, NO_SQUARE);
    assert_eq!(pos.castle_rights(), 0);
    assert_eq!(pos.ep_square(), NO_SQUARE);
    assert_eq!(pos.halfmove_clock(), 0);
    assert_eq!(pos.fullmove_number(), 0);
    for sq in 0..64u8 {
        assert_eq!(pos.piece_on(sq), Piece::NoPiece);
        assert_eq!(pos.color_on(sq), Color::NoColor);
    }
    assert!(!pos.is_ready());
}

#[test]
fn start_position_bitboards() {
    let pos = position(START);
    assert_eq!(pos.us(), Color::White);
    assert_eq!(pos.enemy(), Color::Black);
    assert_eq!(pos.occupancy(), 0xffff_0000_0000_ffff);
    assert_eq!(pos.our_pieces(), 0xffff);
    assert_eq!(pos.their_pieces(), 0xffff_0000_0000_0000);
    assert_eq!(pos.our_pawns(), 0xff00);
    assert_eq!(pos.our_knights(), 0x42);
    assert_eq!(pos.our_bishops(), 0x24);
    assert_eq!(pos.our_rooks(), 0x81);
    assert_eq!(pos.our_queens(), 0x08);
    assert_eq!(pos.our_king(), 0x10);
    assert_eq!(pos.their_pawns(), 0x00ff_0000_0000_0000);
    assert_eq!(pos.their_knights(), 0x4200_0000_0000_0000);
    assert_eq!(pos.their_bishops(), 0x2400_0000_0000_0000);
    assert_eq!(pos.their_rooks(), 0x8100_0000_0000_0000);
    assert_eq!(pos.their_queens(), 0x0800_0000_0000_0000);
    assert_eq!(pos.their_king(), 0x1000_0000_0000_0000);
    assert_eq!(pos.pawns(Color::Black), 0x00ff_0000_0000_0000);
    assert_eq!(pos.knights(Color::White), 0x42);
    assert_eq!(pos.bishops(Color::White), 0x24);
    assert_eq!(pos.rooks(Color::Black), 0x8100_0000_0000_0000);
    assert_eq!(pos.queens(Color::Black), 0x0800_0000_0000_0000);
    assert_eq!(pos.king(Color::White), 0x10);
    assert_eq!(pos.piece_on(4), Piece::King);
    assert_eq!(pos.color_on(4), Color::White);
    assert_eq!(pos.piece_on(59), Piece::Queen);
    assert_eq!(pos.color_on(59), Color::Black);
    assert_eq!(pos.piece_on(28), Piece::NoPiece);
    assert_eq!(pos.color_on(28), Color::NoColor);
    assert_eq!(pos.castle_rights(), 15);
    assert_eq!(pos.ep_square(), NO_SQUARE);
    assert_eq!(pos.halfmove_clock(), 0);
    assert_eq!(pos.fullmove_number(), 1);
}

#[test]
fn bitboards_mirror_the_squares() {
    let pos = position("r3k2r/p1ppqpb1/bn2pnp1/3PN3/1p2P3/2N2Q1p/PPPBBPPP/R3K2R w KQkq - 0 1");
    for sq in 0..64u8 {
        let bit = 1u64 << sq;
        let piece = pos.piece_on(sq);
        let color = pos.color_on(sq);
        assert_eq!(piece == Piece::NoPiece, color == Color::NoColor);
        assert_eq!(pos.occupancy() & bit != 0, piece != Piece::NoPiece);
        for side in [Color::White, Color::Black] {
            assert_eq!(pos.pawns(side) & bit != 0, piece == Piece::Pawn && color == side);
            assert_eq!(pos.knights(side) & bit != 0, piece == Piece::Knight && color == side);
            assert_eq!(pos.bishops(side) & bit != 0, piece == Piece::Bishop && color == side);
            assert_eq!(pos.rooks(side) & bit != 0, piece == Piece::Rook && color == side);
            assert_eq!(pos.queens(side) & bit != 0, piece == Piece::Queen && color == side);
            assert_eq!(pos.king(side) & bit != 0, piece == Piece::King && color == side);
        }
    }
    assert_eq!(pos.our_pieces() & pos.their_pieces(), 0);
    assert_eq!(pos.our_pieces() | pos.their_pieces(), pos.occupancy());
}

#[test]
fn castle_right_masks() {
    assert_eq!(CASTLE_RIGHTS[0], 13);
    assert_eq!(CASTLE_RIGHTS[4], 12);
    assert_eq!(CASTLE_RIGHTS[7], 14);
    assert_eq!(CASTLE_RIGHTS[56], 7);
    assert_eq!(CASTLE_RIGHTS[60], 3);
    assert_eq!(CASTLE_RIGHTS[63], 11);
    for sq in 0..64usize {
        if ![0, 4, 7, 56, 60, 63].contains(&sq) {
            assert_eq!(CASTLE_RIGHTS[sq], 15);
        }
    }
}

#[test]
fn normal_move_and_back() {
    let mut pos = position(START);
    let before = pos;
    // Knight g1 to f3.
    let undo = pos.make_move(mv_create_normal(6, 21));
    assert_eq!(pos.piece_on(6), Piece::NoPiece);
    assert_eq!(pos.piece_on(21), Piece::Knight);
    assert_eq!(pos.color_on(21), Color::White);
    assert_eq!(pos.us(), Color::Black);
    assert_eq!(pos.halfmove_clock(), 1);
    assert_eq!(pos.fullmove_number(), 1);
    assert_eq!(pos.ep_square(), NO_SQUARE);
    assert_eq!(pos.castle_rights(), 15);
    assert_eq!(undo.captured, Piece::NoPiece);
    assert_eq!(undo.castle, 15);
    assert_eq!(undo.half, 0);
    assert_eq!(undo.ep, NO_SQUARE);
    assert_eq!(undo.mv, mv_create_normal(6, 21));
    assert_eq!(pos.to_fen(), "rnbqkbnr/pppppppp/8/8/8/5N2/PPPPPPPP/RNBQKB1R b KQkq - 1 1");
    pos.unmake_move(undo);
    assert!(pos == before);
}

#[test]
fn counters() {
    let mut pos = position(START);
    pos.make_move(mv_create_normal(6, 21));
    // Black's move advances the fullmove number.
    pos.make_move(mv_create_normal(62, 45));
    assert_eq!(pos.halfmove_clock(), 2);
    assert_eq!(pos.fullmove_number(), 2);
    // A pawn move resets the halfmove clock.
    pos.make_move(mv_create_normal(12, 20));
    assert_eq!(pos.halfmove_clock(), 0);
    assert_eq!(pos.fullmove_number(), 2);
}

#[test]
fn double_push_sets_en_passant_only_beside_an_enemy_pawn() {
    // No black pawn beside e4.
    let mut pos = position(START);
    pos.make_move(mv_create_normal(12, 28));
    assert_eq!(pos.ep_square(), NO_SQUARE);
    assert_eq!(pos.to_fen(), "rnbqkbnr/pppppppp/8/8/4P3/8/PPPP1PPP/RNBQKBNR b KQkq - 0 1");
    // A black pawn on d4: e2e4 sets the en passant square e3.
    let mut pos = position("rnbqkbnr/ppp1pppp/8/8/3p4/8/PPPPPPPP/RNBQKBNR w KQkq - 0 3");
    pos.make_move(mv_create_normal(12, 28));
    assert_eq!(pos.ep_square(), 20);
    // A black pawn on f4 as well.
    let mut pos = position("rnbqkbnr/ppppp1pp/8/8/5p2/8/PPPPPPPP/RNBQKBNR w KQkq - 0 3");
    pos.make_move(mv_create_normal(12, 28));
    assert_eq!(pos.ep_square(), 20);
    // A black double push beside a white pawn.
    let mut pos = position("rnbqkbnr/pppppppp/8/4P3/8/8/PPPP1PPP/RNBQKBNR b KQkq - 0 2");
    pos.make_move(mv_create_normal(51, 35));
    assert_eq!(pos.ep_square(), 43);
    // A pawn on a5 is not beside a pawn on h4.
    let mut pos = position("rnbqkbnr/1ppppppp/8/p7/8/8/PPPPPPPP/RNBQKBNR w KQkq - 0 3");
    pos.make_move(mv_create_normal(15, 31));
    assert_eq!(pos.ep_square(), NO_SQUARE);
}

#[test]
fn capture_and_back() {
    let mut pos = position("rnbqkbnr/ppp1pppp/8/3p4/4P3/8/PPPP1PPP/RNBQKBNR w KQkq - 0 2");
    let before = pos;
    let undo = pos.make_move(mv_create_normal(28, 35));
    assert_eq!(undo.captured, Piece::Pawn);
    assert_eq!(pos.piece_on(35), Piece::Pawn);
    assert_eq!(pos.color_on(35), Color::White);
    assert_eq!(pos.piece_on(28), Piece::NoPiece);
    assert_eq!(pos.halfmove_clock(), 0);
    assert_eq!(pos.their_pawns(), (1 << 35) | 0xef00);
    assert_eq!(pos.our_pawns(), 0x00f7_0000_0000_0000);
    pos.unmake_move(undo);
    assert!(pos == before);
}

#[test]
fn en_passant_and_back() {
    let mut pos = position("rnbqkbnr/ppp1pppp/8/3pP3/8/8/PPPP1PPP/RNBQKBNR w KQkq d6 0 3");
    let before = pos;
    let undo = pos.make_move(mv_create_ep(36, 43));
    assert_eq!(pos.piece_on(43), Piece::Pawn);
    assert_eq!(pos.color_on(43), Color::White);
    assert_eq!(pos.piece_on(35), Piece::NoPiece);
    assert_eq!(pos.piece_on(36), Piece::NoPiece);
    assert_eq!(pos.ep_square(), NO_SQUARE);
    assert_eq!(undo.captured, Piece::NoPiece);
    assert_eq!(undo.ep, 43);
    assert_eq!(pos.to_fen(), "rnbqkbnr/ppp1pppp/3P4/8/8/8/PPPP1PPP/RNBQKBNR b KQkq - 0 3");
    pos.unmake_move(undo);
    assert!(pos == before);
    // And for Black.
    let mut pos = position("rnbqkbnr/pppp1ppp/8/8/3Pp3/8/PPP1PPPP/RNBQKBNR b KQkq d3 0 3");
    let before = pos;
    let undo = pos.make_move(mv_create_ep(28, 19));
    assert_eq!(pos.piece_on(19), Piece::Pawn);
    assert_eq!(pos.color_on(19), Color::Black);
    assert_eq!(pos.piece_on(27), Piece::NoPiece);
    pos.unmake_move(undo);
    assert!(pos == before);
}

#[test]
fn castling_and_back() {
    let fen = "r3k2r/pppppppp/8/8/8/8/PPPPPPPP/R3K2R w KQkq - 0 1";
    let mut pos = position(fen);
    let before = pos;
    let undo = pos.make_move(mv_create_castle(4, 6));
    assert_eq!(pos.to_fen(), "r3k2r/pppppppp/8/8/8/8/PPPPPPPP/R4RK1 b kq - 1 1");
    pos.unmake_move(undo);
    assert!(pos == before);
    let undo = pos.make_move(mv_create_castle(4, 2));
    assert_eq!(pos.to_fen(), "r3k2r/pppppppp/8/8/8/8/PPPPPPPP/2KR3R b kq - 1 1");
    pos.unmake_move(undo);
    assert!(pos == before);
    let mut pos = position("r3k2r/pppppppp/8/8/8/8/PPPPPPPP/R3K2R b KQkq - 0 1");
    let before = pos;
    let undo = pos.make_move(mv_create_castle(60, 62));
    assert_eq!(pos.to_fen(), "r4rk1/pppppppp/8/8/8/8/PPPPPPPP/R3K2R w KQ - 1 2");
    pos.unmake_move(undo);
    assert!(pos == before);
    let undo = pos.make_move(mv_create_castle(60, 58));
    assert_eq!(pos.to_fen(), "2kr3r/pppppppp/8/8/8/8/PPPPPPPP/R3K2R w KQ - 1 2");
    pos.unmake_move(undo);
    assert!(pos == before);
}

#[test]
fn promotion_and_back() {
    let mut pos = position("1n2k3/P7/8/8/8/8/7p/4K1N1 w - - 0 1");
    let before = pos;
    let undo = pos.make_move(mv_create_promo(48, 56, 4));
    assert_eq!(pos.piece_on(56), Piece::Queen);
    assert_eq!(pos.color_on(56), Color::White);
    assert_eq!(pos.piece_on(48), Piece::NoPiece);
    pos.unmake_move(undo);
    assert!(pos == before);
    // Promotion with capture, to a knight.
    let undo = pos.make_move(mv_create_promo(48, 57, 1));
    assert_eq!(undo.captured, Piece::Knight);
    assert_eq!(pos.piece_on(57), Piece::Knight);
    assert_eq!(pos.color_on(57), Color::White);
    assert_eq!(pos.to_fen(), "1N2k3/8/8/8/8/8/7p/4K1N1 b - - 0 1");
    pos.unmake_move(undo);
    assert!(pos == before);
    // And for Black.
    let mut pos = position("1n2k3/P7/8/8/8/8/7p/4K1N1 b - - 0 1");
    let before = pos;
    let undo = pos.make_move(mv_create_promo(15, 6, 3));
    assert_eq!(pos.piece_on(6), Piece::Rook);
    assert_eq!(pos.color_on(6), Color::Black);
    pos.unmake_move(undo);
    assert!(pos == before);
}

#[test]
fn touching_a_home_square_drops_the_castle_right() {
    let fen = "r3k2r/pppppppp/8/8/8/8/PPPPPPPP/R3K2R w KQkq - 0 1";
    let mut pos = position(fen);
    pos.make_move(mv_create_normal(7, 6));
    assert_eq!(pos.castle_rights(), 14);
    let mut pos = position(fen);
    pos.make_move(mv_create_normal(0, 1));
    assert_eq!(pos.castle_rights(), 13);
    let mut pos = position(fen);
    pos.make_move(mv_create_normal(4, 3));
    assert_eq!(pos.castle_rights(), 12);
    // A rook that is captured on its home square loses the right too.
    let mut pos = position("r3k2r/8/8/8/8/8/6b1/R3K2R b KQkq - 0 1");
    pos.make_move(mv_create_normal(14, 7));
    assert_eq!(pos.castle_rights(), 14);
}

#[test]
fn make_and_unmake_every_generated_move() {
    let tables = tables();
    let fens = [
        START,
        "r3k2r/p1ppqpb1/bn2pnp1/3PN3/1p2P3/2N2Q1p/PPPBBPPP/R3K2R w KQkq - 0 1",
        "8/2p5/3p4/KP5r/1R3p1k/8/4P1P1/8 w - - 0 1",
        "r3k2r/Pppp1ppp/1b3nbN/nP6/BBP1P3/q4N2/Pp1P2PP/R2Q1RK1 w kq - 0 1",
        "rnbq1k1r/pp1Pbppp/2p5/8/2B5/8/PPP1NnPP/RNBQK2R w KQ - 1 8",
        "rnbqkbnr/ppp1pppp/8/3pP3/8/8/PPPP1PPP/RNBQKBNR w KQkq d6 0 3",
        "r3k2r/Pppp1ppp/1b3nbN/nP6/BBP1P3/q4N2/Pp1P2PP/R2Q1RK1 b kq - 0 1",
    ];
    for fen in fens {
        let mut pos = position(fen);
        assert!(pos.is_playable());
        let before = pos;
        let mut generator = MoveGen::new(pos, &tables);
        generator.gen_legal_moves();
        for mv in generator.moves {
            let undo = pos.make_move(mv);
            assert!(pos != before);
            pos.unmake_move(undo);
            assert!(pos == before);
            assert_eq!(pos.to_fen(), fen);
        }
    }
}

#[test]
fn checkers() {
    let tables = tables();
    assert_eq!(position(START).calc_checkers(&tables), 0);
    // A rook gives check along the e-file.
    let pos = position("4r3/8/8/8/8/8/8/4K2k w - - 0 1");
    assert_eq!(pos.calc_checkers(&tables), 1 << 60);
    // The pawn in between takes the check away.
    let pos = position("4r3/8/8/8/8/4P3/8/4K2k w - - 0 1");
    assert_eq!(pos.calc_checkers(&tables), 0);
    // Check by knight and by pawn at once is not possible in play, but
    // both are counted.
    let pos = position("7k/8/8/8/8/3n4/3p4/4K3 w - - 0 1");
    assert_eq!(pos.calc_checkers(&tables), (1 << 19) | (1 << 11));
    // A bishop and a queen.
    let pos = position("7k/8/8/8/1b5q/8/8/4K3 w - - 0 1");
    assert_eq!(pos.calc_checkers(&tables), (1 << 25) | (1 << 31));
    // Black in check by a white pawn.
    let pos = position("8/8/8/3k4/4P3/8/8/4K3 b - - 0 1");
    assert_eq!(pos.calc_checkers(&tables), 1 << 28);
}

#[test]
fn no_checkers_exactly_when_the_king_is_not_attacked() {
    let tables = tables();
    let fens = [
        START,
        "4r3/8/8/8/8/8/8/4K2k w - - 0 1",
        "4r3/8/8/8/8/4P3/8/4K2k w - - 0 1",
        "7k/8/8/8/1b5q/8/8/4K3 w - - 0 1",
        "8/8/8/3k4/4P3/8/8/4K3 b - - 0 1",
        "r3k2r/p1ppqpb1/bn2pnp1/3PN3/1p2P3/2N2Q1p/PPPBBPPP/R3K2R w KQkq - 0 1",
        "rnbq1k1r/pp1Pbppp/2p5/8/2B5/8/PPP1NnPP/RNBQK2R w KQ - 1 8",
    ];
    for fen in fens {
        let pos = position(fen);
        let attacked = attack::all_attacks(tables.attack(), &pos, pos.enemy());
        let in_check = attacked & pos.our_king() != 0;
        assert_eq!(pos.calc_checkers(&tables) == 0, !in_check);
    }
}

#[test]
fn pinned_pieces() {
    let tables = tables();
    assert_eq!(position(START).calc_pinned(&tables), 0);
    // The pawn on e3 is pinned by the rook on e8.
    let pos = position("4r3/8/8/8/8/4P3/8/4K2k w - - 0 1");
    assert_eq!(pos.calc_pinned(&tables), 1 << 20);
    // Two pieces between: no pin.
    let pos = position("4r3/8/8/8/4N3/4P3/8/4K2k w - - 0 1");
    assert_eq!(pos.calc_pinned(&tables), 0);
    // An enemy piece between: no pin.
    let pos = position("4r3/8/8/4p3/8/4P3/8/4K2k w - - 0 1");
    assert_eq!(pos.calc_pinned(&tables), 0);
    // A bishop pins on the diagonal, a rook on the rank.
    let pos = position("7k/8/8/8/1b6/2N5/8/r2BK3 w - - 0 1");
    assert_eq!(pos.calc_pinned(&tables), (1 << 18) | (1 << 3));
    // A rook on a diagonal pins nothing.
    let pos = position("7k/8/8/8/1r6/2N5/8/4K3 w - - 0 1");
    assert_eq!(pos.calc_pinned(&tables), 0);
}

#[test]
fn validity_checks() {
    let tables = tables();
    assert!(position(START).is_ready());
    assert!(position(START).is_playable());
    assert!(position(START).is_legal(&tables));
    // No black king.
    assert!(!position("8/8/8/8/8/8/8/4K3 w - - 0 1").is_ready());
    // Two white kings.
    assert!(!position("4k3/8/8/8/8/8/8/3KK3 w - - 0 1").is_ready());
    // A castle right without its rook.
    let pos = position("4k3/8/8/8/8/8/8/4K3 w K - 0 1");
    assert!(pos.is_ready());
    assert!(!pos.is_playable());
    // An en passant square without a pawn behind it.
    let pos = position("4k3/8/8/8/8/8/8/4K3 w - e6 0 1");
    assert!(pos.is_ready());
    assert!(!pos.is_playable());
    // The side that is not to move is in check.
    let pos = position("4k3/8/8/8/8/8/4R3/4K3 w - - 0 1");
    assert!(pos.is_playable());
    assert!(!pos.is_legal(&tables));
}

#[test]
fn counters_at_their_limit() {
    // White captures: the clock goes back to zero, and the fullmove number
    // stays as White has moved.
    let mut pos = position("4k3/8/8/8/8/8/4r3/4K3 w - - 2147483647 2147483647");
    assert!(pos.is_playable());
    assert!(pos.has_room(mv_create_normal(4, 12)));
    assert!(!pos.has_room(mv_create_normal(4, 3)));
    let before = pos.to_fen();
    let undo = pos.make_move(mv_create_normal(4, 12));
    assert_eq!(pos.halfmove_clock(), 0);
    assert_eq!(pos.fullmove_number(), i32::MAX);
    pos.unmake_move(undo);
    assert_eq!(pos.to_fen(), before);
    // A pawn move of Black with the clock at its limit.
    let mut pos = position("4k3/4p3/8/8/8/8/8/4K3 b - - 2147483647 7");
    assert!(pos.has_room(mv_create_normal(52, 44)));
    assert!(!pos.has_room(mv_create_normal(60, 59)));
    let undo = pos.make_move(mv_create_normal(52, 44));
    assert_eq!(pos.halfmove_clock(), 0);
    assert_eq!(pos.fullmove_number(), 8);
    pos.unmake_move(undo);
    assert_eq!(pos.halfmove_clock(), i32::MAX);
    assert_eq!(pos.fullmove_number(), 7);
    // The fullmove number counts where Black moves.
    let quiet = mv_create_normal(4, 3);
    assert!(position("4k3/8/8/8/8/8/8/4K3 w - - 0 2147483647").has_room(quiet));
    let quiet = mv_create_normal(60, 59);
    assert!(!position("4k3/8/8/8/8/8/8/4K3 b - - 0 2147483647").has_room(quiet));
    assert!(position("4k3/8/8/8/8/8/8/4K3 b - - 0 2147483646").has_room(quiet));
    assert!(position("4k3/8/8/8/8/8/8/4K3 b - - 2147483646 1").has_room(quiet));
}
