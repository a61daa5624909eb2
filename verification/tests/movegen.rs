use chess_core::attack;
use chess_core::bitboard;
use chess_core::bitboard::Tables;
use chess_core::moves::{
    mv_create_castle, mv_create_ep, mv_create_normal, mv_create_promo, mv_get_dst, mv_get_kind,
    mv_get_src, MoveGen, MOVE_CASTLE, MOVE_ENPASSANT, MOVE_NORMAL, MOVE_PROMO,
};
use chess_core::position::Position;
use chess_core::things::Piece;

const START: &str = "rnbqkbnr/pppppppp/8/8/8/8/PPPPPPPP/RNBQKBNR w KQkq - 0 1";

fn tables() -> Tables {
    bitboard::init(attack::init().expect("the multipliers are sound"))
}

fn position(fen: &str) -> Position {
    let mut pos = Position::new();
    pos.from_fen(fen);
    pos
}

fn moves_of(fen: &str, tables: &Tables) -> Vec<u16> {
    let mut generator = MoveGen::new(position(fen), tables);
    generator.gen_legal_moves();
    generator.moves
}

fn sorted(mut moves: Vec<u16>) -> Vec<u16> {
    moves.sort();
    moves
}

#[test]
fn new_generator_has_no_moves() {
    let tables = tables();
    let generator = MoveGen::new(position(START), &tables);
    assert!(generator.moves.is_empty());
}

#[test]
fn moves_of_the_start_position() {
    let tables = tables();
    let moves = moves_of(START, &tables);
    let mut expected = Vec::new();
    for file in 0..8u8 {
        expected.push(mv_create_normal(8 + file, 16 + file));
        expected.push(mv_create_normal(8 + file, 24 + file));
    }
    expected.push(mv_create_normal(1, 16));
    expected.push(mv_create_normal(1, 18));
    expected.push(mv_create_normal(6, 21));
    expected.push(mv_create_normal(6, 23));
    assert_eq!(moves.len(), 20);
    assert_eq!(sorted(moves), sorted(expected));
}

#[test]
fn moves_come_in_the_order_of_the_generators() {
    let tables = tables();
    let moves = moves_of(START, &tables);
    // Pawn advances first, square by square, then the knights.
    assert_eq!(moves[0], mv_create_normal(8, 16));
    assert_eq!(moves[1], mv_create_normal(8, 24));
    assert_eq!(moves[2], mv_create_normal(9, 17));
    assert_eq!(moves[15], mv_create_normal(15, 31));
    assert_eq!(moves[16], mv_create_normal(1, 16));
    assert_eq!(moves[17], mv_create_normal(1, 18));
    assert_eq!(moves[18], mv_create_normal(6, 21));
    assert_eq!(moves[19], mv_create_normal(6, 23));
}

#[test]
fn no_move_is_generated_twice() {
    let tables = tables();
    let fens = [
        START,
        "r3k2r/p1ppqpb1/bn2pnp1/3PN3/1p2P3/2N2Q1p/PPPBBPPP/R3K2R w KQkq - 0 1",
        "8/2p5/3p4/KP5r/1R3p1k/8/4P1P1/8 w - - 0 1",
        "r3k2r/Pppp1ppp/1b3nbN/nP6/BBP1P3/q4N2/Pp1P2PP/R2Q1RK1 w kq - 0 1",
        "rnbq1k1r/pp1Pbppp/2p5/8/2B5/8/PPP1NnPP/RNBQK2R w KQ - 1 8",
        "r4rk1/1pp1qppp/p1np1n2/2b1p1B1/2B1P1b1/P1NP1N2/1PP1QPPP/R4RK1 w - - 0 10",
        "4r3/8/8/8/8/8/8/4K2k w - - 0 1",
        "1n2k3/P7/8/8/8/8/7p/4K1N1 w - - 0 1",
    ];
    for fen in fens {
        let moves = sorted(moves_of(fen, &tables));
        for pair in moves.windows(2) {
            assert_ne!(pair[0], pair[1]);
        }
    }
}

#[test]
fn generated_moves_leave_the_own_king_safe() {
    let tables = tables();
    let fens = [
        START,
        "r3k2r/p1ppqpb1/bn2pnp1/3PN3/1p2P3/2N2Q1p/PPPBBPPP/R3K2R w KQkq - 0 1",
        "8/2p5/3p4/KP5r/1R3p1k/8/4P1P1/8 w - - 0 1",
        "r3k2r/Pppp1ppp/1b3nbN/nP6/BBP1P3/q4N2/Pp1P2PP/R2Q1RK1 w kq - 0 1",
        "rnbq1k1r/pp1Pbppp/2p5/8/2B5/8/PPP1NnPP/RNBQK2R w KQ - 1 8",
        "r4rk1/1pp1qppp/p1np1n2/2b1p1B1/2B1P1b1/P1NP1N2/1PP1QPPP/R4RK1 w - - 0 10",
        "4r3/8/8/8/8/4P3/8/4K2k w - - 0 1",
        "7k/8/8/8/1b5q/8/8/4K3 w - - 0 1",
        "8/8/8/2k5/3Pp3/8/8/4K3 b - d3 0 1",
        "8/8/8/8/k2Pp2R/8/8/4K3 b - d3 0 1",
        "5K2/8/8/3Pp3/8/b7/8/7k w - e6 0 1",
        "2b4k/8/8/3pP3/6K1/8/8/8 w - d6 0 2",
        "1b5k/8/8/2Pp4/5K2/8/8/8 w - d6 0 2",
        "7k/b7/8/2pP4/3K4/8/8/8 w - c6 0 2",
        "8/8/8/3pP3/4K3/8/8/7k w - d6 0 1",
    ];
    for fen in fens {
        let mut pos = position(fen);
        assert!(pos.is_legal(&tables));
        let mover = pos.us();
        for mv in moves_of(fen, &tables) {
            let undo = pos.make_move(mv);
            let attacked = attack::all_attacks(tables.attack(), &pos, pos.us());
            assert_eq!(attacked & pos.king(mover), 0);
            assert!(pos.is_legal(&tables));
            pos.unmake_move(undo);
        }
    }
}

#[test]
fn not_in_check_the_list_is_the_union_of_the_pieces_moves() {
    let tables = tables();
    let fen = "r3k2r/p1ppqpb1/bn2pnp1/3PN3/1p2P3/2N2Q1p/PPPBBPPP/R3K2R w KQkq - 0 1";
    let pos = position(fen);
    let moves = moves_of(fen, &tables);
    assert_eq!(moves.len(), 48);
    let count = |piece: Piece, kind: u8| {
        moves
            .iter()
            .filter(|&&mv| pos.piece_on(mv_get_src(mv)) == piece && mv_get_kind(mv) == kind)
            .count()
    };
    assert_eq!(count(Piece::Pawn, MOVE_NORMAL), 8);
    assert_eq!(count(Piece::Knight, MOVE_NORMAL), 11);
    assert_eq!(count(Piece::Bishop, MOVE_NORMAL), 11);
    assert_eq!(count(Piece::Rook, MOVE_NORMAL), 5);
    assert_eq!(count(Piece::Queen, MOVE_NORMAL), 9);
    assert_eq!(count(Piece::King, MOVE_NORMAL), 2);
    assert_eq!(count(Piece::King, MOVE_CASTLE), 2);
    for mv in moves {
        assert_eq!(pos.color_on(mv_get_src(mv)), pos.us());
        assert_ne!(pos.color_on(mv_get_dst(mv)), pos.us());
    }
}

#[test]
fn castling_moves() {
    let tables = tables();
    let both = "r3k2r/pppppppp/8/8/8/8/PPPPPPPP/R3K2R w KQkq - 0 1";
    let moves = moves_of(both, &tables);
    assert!(moves.contains(&mv_create_castle(4, 6)));
    assert!(moves.contains(&mv_create_castle(4, 2)));
    let moves = moves_of("r3k2r/pppppppp/8/8/8/8/PPPPPPPP/R3K2R b KQkq - 0 1", &tables);
    assert!(moves.contains(&mv_create_castle(60, 62)));
    assert!(moves.contains(&mv_create_castle(60, 58)));
    // Without the right there is no castling.
    let moves = moves_of("r3k2r/pppppppp/8/8/8/8/PPPPPPPP/R3K2R w kq - 0 1", &tables);
    assert!(!moves.contains(&mv_create_castle(4, 6)));
    assert!(!moves.contains(&mv_create_castle(4, 2)));
    // A piece in the way.
    let moves = moves_of("r3k2r/pppppppp/8/8/8/8/PPPPPPPP/RN2K1NR w KQkq - 0 1", &tables);
    assert!(!moves.contains(&mv_create_castle(4, 6)));
    assert!(!moves.contains(&mv_create_castle(4, 2)));
    // The king would pass an attacked square: f1 is attacked by the rook.
    let moves = moves_of("4kr2/8/8/8/8/8/8/R3K2R w KQ - 0 1", &tables);
    assert!(!moves.contains(&mv_create_castle(4, 6)));
    assert!(moves.contains(&mv_create_castle(4, 2)));
    // An attack on b1 does not forbid castling long.
    let moves = moves_of("1r2k3/8/8/8/8/8/8/R3K2R w KQ - 0 1", &tables);
    assert!(moves.contains(&mv_create_castle(4, 2)));
    assert!(moves.contains(&mv_create_castle(4, 6)));
    // In check there is no castling.
    let moves = moves_of("4r1k1/8/8/8/8/8/8/R3K2R w KQ - 0 1", &tables);
    assert!(!moves.contains(&mv_create_castle(4, 6)));
    assert!(!moves.contains(&mv_create_castle(4, 2)));
}

#[test]
fn promotions_come_in_fours() {
    let tables = tables();
    let moves = moves_of("1n2k3/P7/8/8/8/8/8/4K3 w - - 0 1", &tables);
    let promotions: Vec<u16> = moves
        .iter()
        .copied()
        .filter(|&mv| mv_get_kind(mv) == MOVE_PROMO)
        .collect();
    assert_eq!(
        promotions,
        vec![
            mv_create_promo(48, 56, 1),
            mv_create_promo(48, 56, 2),
            mv_create_promo(48, 56, 3),
            mv_create_promo(48, 56, 4),
            mv_create_promo(48, 57, 1),
            mv_create_promo(48, 57, 2),
            mv_create_promo(48, 57, 3),
            mv_create_promo(48, 57, 4),
        ]
    );
    assert!(!moves.contains(&mv_create_normal(48, 56)));
    // Five king moves and the eight promotions.
    assert_eq!(moves.len(), 13);
    // Black promotes on the first rank.
    let moves = moves_of("4k3/8/8/8/8/8/7p/4K3 b - - 0 1", &tables);
    assert!(moves.contains(&mv_create_promo(15, 7, 4)));
    assert!(moves.contains(&mv_create_promo(15, 7, 1)));
    assert!(!moves.contains(&mv_create_normal(15, 7)));
}

#[test]
fn en_passant_captures() {
    let tables = tables();
    let moves = moves_of("rnbqkbnr/ppp1pppp/8/3pP3/8/8/PPPP1PPP/RNBQKBNR w KQkq d6 0 3", &tables);
    assert!(moves.contains(&mv_create_ep(36, 43)));
    assert_eq!(moves.iter().filter(|&&mv| mv_get_kind(mv) == MOVE_ENPASSANT).count(), 1);
    // Two pawns can capture.
    let moves = moves_of("4k3/8/8/2PpP3/8/8/8/4K3 w - d6 0 1", &tables);
    assert!(moves.contains(&mv_create_ep(34, 43)));
    assert!(moves.contains(&mv_create_ep(36, 43)));
    // With both pawns gone from the rank the rook would give check.
    let moves = moves_of("8/8/8/8/k2Pp2R/8/8/4K3 b - d3 0 1", &tables);
    assert!(!moves.contains(&mv_create_ep(28, 19)));
    let moves = moves_of("7k/8/8/K2pP2r/8/8/8/8 w - d6 0 1", &tables);
    assert!(!moves.contains(&mv_create_ep(36, 43)));
    // A pawn pinned on the file may not capture.
    let moves = moves_of("4r2k/8/8/3pP3/8/8/8/4K3 w - d6 0 1", &tables);
    assert!(!moves.contains(&mv_create_ep(36, 43)));
    // Nor a pawn pinned on a diagonal that the capture leaves.
    let moves = moves_of("b6k/8/8/3Pp3/8/8/8/7K w - e6 0 1", &tables);
    assert!(!moves.contains(&mv_create_ep(35, 44)));
    let moves = moves_of("7k/8/5b2/3pP3/8/8/8/K7 w - d6 0 1", &tables);
    assert!(!moves.contains(&mv_create_ep(36, 43)));
    // A pawn pinned on the diagonal of the capture may capture.
    let moves = moves_of("7b/8/8/4Pp2/8/8/1K6/7k w - f6 0 1", &tables);
    assert!(moves.contains(&mv_create_ep(36, 45)));
    // Without an en passant square there is no such capture.
    let moves = moves_of("7k/8/8/3pP3/8/8/8/7K w - - 0 1", &tables);
    assert!(!moves.iter().any(|&mv| mv_get_kind(mv) == MOVE_ENPASSANT));
}

#[test]
fn pinned_pieces_stay_on_the_pin_line() {
    let tables = tables();
    // The rook on e3 is pinned by the rook on e8: it moves on the e-file
    // only, up to the capture of the pinning rook.
    let moves = moves_of("4r2k/8/8/8/8/4R3/8/4K3 w - - 0 1", &tables);
    let rook_moves: Vec<u8> = moves
        .iter()
        .filter(|&&mv| mv_get_src(mv) == 20)
        .map(|&mv| mv_get_dst(mv))
        .collect();
    assert_eq!(rook_moves, vec![12, 28, 36, 44, 52, 60]);
    // A pinned knight does not move at all.
    let moves = moves_of("4r2k/8/8/8/8/4N3/8/4K3 w - - 0 1", &tables);
    assert!(!moves.iter().any(|&mv| mv_get_src(mv) == 20));
    // A pinned pawn may advance on the file but not capture off it.
    let moves = moves_of("4r2k/8/8/8/3p4/4P3/8/4K3 w - - 0 1", &tables);
    assert!(moves.contains(&mv_create_normal(20, 28)));
    assert!(!moves.contains(&mv_create_normal(20, 27)));
}

#[test]
fn check_evasions() {
    let tables = tables();
    // Check by a rook on the e-file: the king steps aside, the bishop
    // blocks on e2 or e3... the knight captures the rook.
    let moves = sorted(moves_of("4r2k/8/8/3N4/8/8/8/3BK3 w - - 0 1", &tables));
    let expected = sorted(vec![
        mv_create_normal(4, 3 + 8),
        mv_create_normal(4, 5),
        mv_create_normal(4, 13),
        mv_create_normal(3, 12),
        mv_create_normal(35, 52),
        mv_create_normal(35, 20),
    ]);
    assert_eq!(moves, expected);
    // The king may not step back along the line of the check.
    let moves = moves_of("7k/8/8/8/8/8/8/r3K3 w - - 0 1", &tables);
    assert!(!moves.contains(&mv_create_normal(4, 5)));
    assert!(!moves.contains(&mv_create_normal(4, 3)));
    assert_eq!(sorted(moves), sorted(vec![
        mv_create_normal(4, 11),
        mv_create_normal(4, 12),
        mv_create_normal(4, 13),
    ]));
    // Double check: only the king moves.
    let moves = moves_of("4r2k/8/8/8/1b6/8/8/R3K2R w KQ - 0 1", &tables);
    assert!(moves.iter().all(|&mv| mv_get_src(mv) == 4 && mv_get_kind(mv) == MOVE_NORMAL));
    // Mate: no moves.
    let moves = moves_of("7k/8/8/8/8/8/r7/r3K3 w - - 0 1", &tables);
    assert!(moves.is_empty());
    // Stalemate: no moves either.
    let moves = moves_of("7k/5Q2/6K1/8/8/8/8/8 b - - 0 1", &tables);
    assert!(moves.is_empty());
}

#[test]
fn capturing_the_checking_pawn_en_passant() {
    let tables = tables();
    // The pawn that has just gone to d5 gives check; it can be captured
    // en passant.
    let moves = moves_of("8/8/8/3pP3/4K3/8/8/7k w - d6 0 1", &tables);
    assert!(moves.contains(&mv_create_ep(36, 43)));
}

#[test]
fn en_passant_in_check_must_answer_the_check() {
    let tables = tables();
    // The pawn that went to e5 has opened the bishop's diagonal to f8: the
    // capture on e6 neither takes the bishop nor blocks the diagonal.
    let fen = "5K2/8/8/3Pp3/8/b7/8/7k w - e6 0 1";
    let pos = position(fen);
    assert!(pos.is_legal(&tables));
    assert_ne!(pos.calc_checkers(&tables), 0);
    let moves = moves_of(fen, &tables);
    assert!(!moves.iter().any(|&mv| mv_get_kind(mv) == MOVE_ENPASSANT));
    assert!(!moves.contains(&mv_create_ep(35, 44)));
    assert_eq!(sorted(moves), sorted(legal_by_trying(fen, &tables)));
    // The same with the bishop behind the pawn that could be captured.
    let fen = "2b4k/8/8/3pP3/6K1/8/8/8 w - d6 0 2";
    assert!(position(fen).is_legal(&tables));
    let moves = moves_of(fen, &tables);
    assert!(!moves.iter().any(|&mv| mv_get_kind(mv) == MOVE_ENPASSANT));
    assert_eq!(sorted(moves), sorted(legal_by_trying(fen, &tables)));
    // A capture that lands between the checking bishop and the king.
    let fen = "1b5k/8/8/2Pp4/5K2/8/8/8 w - d6 0 2";
    assert!(position(fen).is_legal(&tables));
    let moves = moves_of(fen, &tables);
    assert!(moves.contains(&mv_create_ep(34, 43)));
    assert_eq!(sorted(moves), sorted(legal_by_trying(fen, &tables)));
    // Against two checking pieces only the king moves.
    let fen = "7k/8/8/3pP3/r3K3/8/8/8 w - d6 0 2";
    let moves = moves_of(fen, &tables);
    assert!(!moves.iter().any(|&mv| mv_get_kind(mv) == MOVE_ENPASSANT));
    assert_eq!(sorted(moves), sorted(legal_by_trying(fen, &tables)));
}

#[test]
fn en_passant_does_not_open_a_diagonal_to_the_king() {
    let tables = tables();
    // The pawn on c5 gives check and shields the king from the bishop:
    // with it gone the bishop would give check.
    let fen = "7k/b7/8/2pP4/3K4/8/8/8 w - c6 0 2";
    assert!(position(fen).is_legal(&tables));
    let moves = moves_of(fen, &tables);
    assert!(!moves.contains(&mv_create_ep(35, 42)));
    assert_eq!(sorted(moves), sorted(legal_by_trying(fen, &tables)));
    // Not in check: the captured pawn alone stands between queen and king.
    let fen = "7k/q7/8/2pP4/8/4K3/8/8 w - c6 0 2";
    assert!(position(fen).is_legal(&tables));
    let moves = moves_of(fen, &tables);
    assert!(!moves.contains(&mv_create_ep(35, 42)));
    assert_eq!(sorted(moves), sorted(legal_by_trying(fen, &tables)));
    // With the bishop elsewhere the capture is there.
    let fen = "7k/1b6/8/2pP4/8/4K3/8/8 w - c6 0 2";
    let moves = moves_of(fen, &tables);
    assert!(moves.contains(&mv_create_ep(35, 42)));
    assert_eq!(sorted(moves), sorted(legal_by_trying(fen, &tables)));
}

#[test]
fn king_does_not_capture_a_guarded_piece() {
    let tables = tables();
    let moves = moves_of("7k/8/8/8/8/2b5/3r4/4K3 w - - 0 1", &tables);
    assert!(!moves.contains(&mv_create_normal(4, 11)));
    let moves = moves_of("7k/8/8/8/8/8/3r4/4K3 w - - 0 1", &tables);
    assert!(moves.contains(&mv_create_normal(4, 11)));
}

/// Whether the rules of movement allow `mv` in `pos`, whatever it does to
/// the own king; worked out square by square.
fn allowed(pos: &Position, tables: &Tables, mv: u16) -> bool {
    let src = mv_get_src(mv);
    let dst = mv_get_dst(mv);
    let kind = mv_get_kind(mv);
    let promo = mv >> 14;
    let us = pos.us();
    let white = us == chess_core::things::Color::White;
    let piece = pos.piece_on(src);
    if pos.color_on(src) != us || pos.color_on(dst) == us {
        return false;
    }
    let (sr, sf) = ((src / 8) as i32, (src % 8) as i32);
    let (dr, df) = ((dst / 8) as i32 - sr, (dst % 8) as i32 - sf);
    let empty = |r: i32, f: i32| pos.piece_on((8 * r + f) as u8) == Piece::NoPiece;
    let clear = |step_r: i32, step_f: i32| {
        let mut r = sr + step_r;
        let mut f = sf + step_f;
        while (r, f) != (sr + dr, sf + df) {
            if !empty(r, f) {
                return false;
            }
            r += step_r;
            f += step_f;
        }
        true
    };
    let straight = (dr == 0) != (df == 0);
    let diagonal = dr != 0 && dr.abs() == df.abs();
    let slides = |ok: bool| ok && clear(dr.signum(), df.signum());
    let enemy_attacks = attack::all_attacks(tables.attack(), pos, pos.enemy());
    match piece {
        Piece::Knight => {
            kind == MOVE_NORMAL && promo == 0 && dr.abs() * df.abs() == 2
        }
        Piece::Bishop => kind == MOVE_NORMAL && promo == 0 && slides(diagonal),
        Piece::Rook => kind == MOVE_NORMAL && promo == 0 && slides(straight),
        Piece::Queen => kind == MOVE_NORMAL && promo == 0 && slides(straight || diagonal),
        Piece::King => {
            if kind == MOVE_NORMAL {
                promo == 0 && dr.abs().max(df.abs()) == 1
            } else if kind == MOVE_CASTLE && promo == 0 && dr == 0 && (df == 2 || df == -2) {
                let base = if white { 0u8 } else { 56u8 };
                let short = df == 2;
                let right = match (white, short) {
                    (true, true) => 1,
                    (true, false) => 2,
                    (false, true) => 4,
                    (false, false) => 8,
                };
                let (free, safe): (&[u8], &[u8]) = if short {
                    (&[5, 6], &[5, 6])
                } else {
                    (&[1, 2, 3], &[2, 3])
                };
                src == base + 4
                    && pos.castle_rights() & right != 0
                    && enemy_attacks & (1 << src) == 0
                    && free.iter().all(|&f| pos.piece_on(base + f) == Piece::NoPiece)
                    && safe.iter().all(|&f| enemy_attacks & (1 << (base + f)) == 0)
            } else {
                false
            }
        }
        Piece::Pawn => {
            let forward = if white { 1 } else { -1 };
            let home = if white { 1 } else { 6 };
            let last = if white { 7 } else { 0 };
            if kind == MOVE_ENPASSANT {
                return promo == 0
                    && pos.ep_square() == dst
                    && dr == forward
                    && df.abs() == 1;
            }
            let word_ok = if (dst / 8) as i32 == last {
                kind == MOVE_PROMO
            } else {
                kind == MOVE_NORMAL && promo == 0
            };
            let push = df == 0
                && pos.piece_on(dst) == Piece::NoPiece
                && (dr == forward || (dr == 2 * forward && sr == home && empty(sr + forward, sf)));
            let capture =
                dr == forward && df.abs() == 1 && pos.color_on(dst) == pos.enemy();
            word_ok && (push || capture)
        }
        Piece::NoPiece => false,
    }
}

/// The legal moves of `fen`, found by trying every move word.
fn legal_by_trying(fen: &str, tables: &Tables) -> Vec<u16> {
    let mut pos = position(fen);
    let mover = pos.us();
    let mut legal = Vec::new();
    for mv in 0..=u16::MAX {
        if allowed(&pos, tables, mv) {
            let undo = pos.make_move(mv);
            let attacked = attack::all_attacks(tables.attack(), &pos, pos.us());
            if attacked & pos.king(mover) == 0 {
                legal.push(mv);
            }
            pos.unmake_move(undo);
        }
    }
    legal
}

#[test]
fn the_list_holds_exactly_the_legal_moves() {
    let tables = tables();
    let fens = [
        START,
        "r3k2r/p1ppqpb1/bn2pnp1/3PN3/1p2P3/2N2Q1p/PPPBBPPP/R3K2R w KQkq - 0 1",
        "r3k2r/p1ppqpb1/bn2pnp1/3PN3/1p2P3/2N2Q1p/PPPBBPPP/R3K2R b KQkq - 0 1",
        "8/2p5/3p4/KP5r/1R3p1k/8/4P1P1/8 w - - 0 1",
        "r3k2r/Pppp1ppp/1b3nbN/nP6/BBP1P3/q4N2/Pp1P2PP/R2Q1RK1 w kq - 0 1",
        "rnbq1k1r/pp1Pbppp/2p5/8/2B5/8/PPP1NnPP/RNBQK2R w KQ - 1 8",
        "r4rk1/1pp1qppp/p1np1n2/2b1p1B1/2B1P1b1/P1NP1N2/1PP1QPPP/R4RK1 w - - 0 10",
        "r4rk1/1pp1qppp/p1np1n2/2b1p1B1/2B1P1b1/P1NP1N2/1PP1QPPP/R4RK1 b - - 0 10",
        "rnbqkbnr/ppp1pppp/8/3pP3/8/8/PPPP1PPP/RNBQKBNR w KQkq d6 0 3",
        "4r2k/8/8/3N4/8/8/8/3BK3 w - - 0 1",
        "4r3/6k1/8/8/1b6/8/8/R3K2R w KQ - 0 1",
        "7k/8/8/8/8/8/r7/r3K3 w - - 0 1",
        "7k/5Q2/6K1/8/8/8/8/8 b - - 0 1",
        "8/8/8/3pP3/4K3/8/8/7k w - d6 0 1",
        "8/8/8/8/k2Pp2R/8/8/4K3 b - d3 0 1",
        "7b/8/8/4Pp2/8/8/1K6/7k w - f6 0 1",
        "4r2k/8/8/8/3p4/4P3/8/4K3 w - - 0 1",
        "1n2k3/P7/8/8/8/8/7p/4K1N1 w - - 0 1",
        "1n2k3/P7/8/8/8/8/7p/4K1N1 b - - 0 1",
    ];
    for fen in fens {
        assert!(position(fen).is_legal(&tables));
        assert_eq!(sorted(moves_of(fen, &tables)), sorted(legal_by_trying(fen, &tables)));
    }
}

#[test]
fn moves_are_grouped_by_generator() {
    let tables = tables();
    let fen = "r3k2r/p1ppqpb1/bn2pnp1/3PN3/1p2P3/2N2Q1p/PPPBBPPP/R3K2R w KQkq - 0 1";
    let pos = position(fen);
    let place = |mv: u16| match pos.piece_on(mv_get_src(mv)) {
        Piece::Pawn => {
            if mv_get_src(mv) % 8 == mv_get_dst(mv) % 8 {
                0
            } else {
                1
            }
        }
        Piece::Knight => 3,
        Piece::Bishop => 4,
        Piece::Rook => 5,
        Piece::Queen => 6,
        _ => {
            if mv_get_kind(mv) == MOVE_CASTLE {
                8
            } else {
                7
            }
        }
    };
    let moves = moves_of(fen, &tables);
    for pair in moves.windows(2) {
        assert!(place(pair[0]) <= place(pair[1]));
    }
    // In check the king moves come first.
    let moves = moves_of("4r2k/8/8/3N4/8/8/8/3BK3 w - - 0 1", &tables);
    assert_eq!(mv_get_src(moves[0]), 4);
    assert_eq!(mv_get_src(moves[1]), 4);
    assert_eq!(mv_get_src(moves[2]), 4);
    assert_eq!(mv_get_src(moves[3]), 35);
    assert_eq!(mv_get_src(moves[5]), 3);
}
