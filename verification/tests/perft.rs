use chess_core::attack;
use chess_core::bitboard;
use chess_core::bitboard::Tables;
use chess_core::moves::MoveGen;
use chess_core::perft::{perft, perft_checked};
use chess_core::position::Position;

fn tables() -> Tables {
    bitboard::init(attack::init().expect("the multipliers are sound"))
}

fn count(depth: u32, pos: &mut Position, tables: &Tables) -> u64 {
    let mut generator = MoveGen::new(*pos, tables);
    generator.gen_legal_moves();
    if depth == 1 {
        return generator.moves.len() as u64;
    }
    let mut nodes = 0;
    for mv in generator.moves {
        let undo = pos.make_move(mv);
        nodes += count(depth - 1, pos, tables);
        pos.unmake_move(undo);
    }
    nodes
}

fn perft_of(fen: &str, depth: u32) -> u64 {
    let tables = tables();
    let mut pos = Position::new();
    pos.from_fen(fen);
    let before = pos;
    let nodes = count(depth, &mut pos, &tables);
    assert!(pos == before);
    assert_eq!(perft(depth, &mut pos, &tables) as u64, nodes);
    assert!(pos == before);
    assert_eq!(perft_checked(depth, &mut pos, &tables), Some(nodes as usize));
    assert!(pos == before);
    nodes
}

#[test]
fn perft_refuses_a_position_that_cannot_be_played_on() {
    let tables = tables();
    // No black king.
    let mut pos = Position::parse_fen("8/8/8/8/8/8/8/4K3 w - - 0 1").expect("a good text");
    assert_eq!(perft_checked(1, &mut pos, &tables), None);
    // The black king can be captured: after that there is none.
    let mut pos = Position::parse_fen("4k3/8/8/8/8/8/4R3/4K3 w - - 0 1").expect("a good text");
    assert_eq!(perft_checked(1, &mut pos, &tables), Some(17));
    assert_eq!(perft_checked(2, &mut pos, &tables), None);
}

#[test]
fn perft_counts_leaves_without_making_moves() {
    let tables = tables();
    // The clock is at its limit: the king's moves can be counted, not made.
    let fen = "4k3/8/8/8/8/8/8/4K3 w - - 2147483647 1";
    let mut pos = Position::parse_fen(fen).expect("a good text");
    assert_eq!(perft_checked(1, &mut pos, &tables), Some(5));
    assert_eq!(perft(1, &mut pos, &tables), 5);
    assert_eq!(perft_checked(2, &mut pos, &tables), None);
    // Captures and pawn moves set the clock back: they can be made.
    let fen = "1r4k1/8/8/8/4P3/8/7r/K7 w - - 2147483647 1";
    let mut pos = Position::parse_fen(fen).expect("a good text");
    assert_eq!(perft_checked(1, &mut pos, &tables), Some(1));
    let nodes = count(2, &mut pos, &tables) as usize;
    assert_eq!(perft_checked(2, &mut pos, &tables), Some(nodes));
    assert_eq!(perft(2, &mut pos, &tables), nodes);
    // A castle right without its rook: castling is listed and cannot be made.
    let fen = "4k3/8/8/8/8/8/8/4K3 w K - 0 1";
    let mut pos = Position::parse_fen(fen).expect("a good text");
    assert_eq!(perft_checked(1, &mut pos, &tables), Some(6));
    assert_eq!(perft_checked(2, &mut pos, &tables), None);
}

#[test]
fn perft_of_a_mate_is_zero() {
    let tables = tables();
    let mut pos = Position::parse_fen("7k/8/8/8/8/8/r7/r3K3 w - - 0 1").expect("a good text");
    assert_eq!(perft_checked(1, &mut pos, &tables), Some(0));
    assert_eq!(perft_checked(3, &mut pos, &tables), Some(0));
    assert_eq!(perft(2, &mut pos, &tables), 0);
}

#[test]
fn perft_start_position() {
    let fen = "rnbqkbnr/pppppppp/8/8/8/8/PPPPPPPP/RNBQKBNR w KQkq - 0 1";
    assert_eq!(perft_of(fen, 1), 20);
    assert_eq!(perft_of(fen, 2), 400);
    assert_eq!(perft_of(fen, 3), 8902);
    assert_eq!(perft_of(fen, 4), 197281);
}

#[test]
fn perft_pins_and_captures() {
    let fen = "r3k2r/p1ppqpb1/bn2pnp1/3PN3/1p2P3/2N2Q1p/PPPBBPPP/R3K2R w KQkq - 0 1";
    assert_eq!(perft_of(fen, 1), 48);
    assert_eq!(perft_of(fen, 2), 2039);
    assert_eq!(perft_of(fen, 3), 97862);
}

#[test]
fn perft_en_passant_edge_cases() {
    let fen = "8/2p5/3p4/KP5r/1R3p1k/8/4P1P1/8 w - - 0 1";
    assert_eq!(perft_of(fen, 1), 14);
    assert_eq!(perft_of(fen, 2), 191);
    assert_eq!(perft_of(fen, 3), 2812);
    assert_eq!(perft_of(fen, 4), 43238);
}

#[test]
fn perft_promotions_and_castle_rights() {
    let fen = "r3k2r/Pppp1ppp/1b3nbN/nP6/BBP1P3/q4N2/Pp1P2PP/R2Q1RK1 w kq - 0 1";
    assert_eq!(perft_of(fen, 1), 6);
    assert_eq!(perft_of(fen, 2), 264);
    assert_eq!(perft_of(fen, 3), 9467);
}

#[test]
fn perft_discovered_checks() {
    let fen = "rnbq1k1r/pp1Pbppp/2p5/8/2B5/8/PPP1NnPP/RNBQK2R w KQ - 1 8";
    assert_eq!(perft_of(fen, 1), 44);
    assert_eq!(perft_of(fen, 2), 1486);
    assert_eq!(perft_of(fen, 3), 62379);
}

#[test]
fn perft_middlegame() {
    let fen = "r4rk1/1pp1qppp/p1np1n2/2b1p1B1/2B1P1b1/P1NP1N2/1PP1QPPP/R4RK1 w - - 0 10";
    assert_eq!(perft_of(fen, 1), 46);
    assert_eq!(perft_of(fen, 2), 2079);
    assert_eq!(perft_of(fen, 3), 89890);
}
