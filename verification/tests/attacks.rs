use chess_core::attack::{
    all_attacks, bishop_attacks, bishop_mask, calc_king_attacks, calc_knight_attacks,
    empty_board_attack, gen_bishop_attack, gen_rook_attack, init, king_attacks,
    king_attacks_from, knight_attacks, knight_attacks_from, pawn_attacks, pawn_attacks_black,
    pawn_attacks_white, queen_attacks, rook_attacks, rook_mask, AttackTables,
};
use chess_core::position::Position;
use chess_core::things::{Color, Piece};

fn tables() -> AttackTables {
    init().expect("the multipliers are sound")
}

/// What a slider on `sq` attacks, found by walking the given directions.
fn walk(sq: u8, occ: u64, directions: &[(i8, i8)]) -> u64 {
    let mut attack = 0u64;
    for &(dr, df) in directions {
        let mut r = (sq / 8) as i8 + dr;
        let mut f = (sq % 8) as i8 + df;
        while (0..8).contains(&r) && (0..8).contains(&f) {
            let bit = 1u64 << (8 * r + f);
            attack |= bit;
            if occ & bit != 0 {
                break;
            }
            r += dr;
            f += df;
        }
    }
    attack
}

const STRAIGHT: [(i8, i8); 4] = [(1, 0), (-1, 0), (0, 1), (0, -1)];
const DIAGONAL: [(i8, i8); 4] = [(1, 1), (1, -1), (-1, 1), (-1, -1)];

#[test]
fn rook_on_an_empty_board() {
    let tables = tables();
    assert_eq!(rook_attacks(&tables, 1 << 27, 0), 0x0808_0808_f708_0808);
    assert_eq!(rook_attacks(&tables, 1, 0), 0x0101_0101_0101_01fe);
    assert_eq!(gen_rook_attack(27, 0), 0x0808_0808_f708_0808);
}

#[test]
fn bishop_on_an_empty_board() {
    let tables = tables();
    assert_eq!(bishop_attacks(&tables, 1 << 27, 0), 0x8041_2214_0014_2241);
    assert_eq!(gen_bishop_attack(27, 0), 0x8041_2214_0014_2241);
}

#[test]
fn rook_stops_at_the_nearest_blocker() {
    let tables = tables();
    // Blockers on f4, d6, b4 and d2 around a rook on d4.
    let occ = 0x0800_2200_0800u64;
    assert_eq!(rook_attacks(&tables, 1 << 27, occ), 0x0808_3608_0800);
    assert_eq!(gen_rook_attack(27, occ), 0x0808_3608_0800);
}

#[test]
fn bishop_stops_at_the_nearest_blocker() {
    let tables = tables();
    // Blockers on f6, b2 and c5 around a bishop on d4.
    let occ = 0x2004_0000_0200u64;
    assert_eq!(bishop_attacks(&tables, 1 << 27, occ), 0x2014_0014_2240);
    assert_eq!(gen_bishop_attack(27, occ), 0x2014_0014_2240);
}

#[test]
fn table_lookup_agrees_with_walking_the_rays() {
    let tables = tables();
    let occupancies = [
        0u64,
        u64::MAX,
        0x0000_0018_1800_0000,
        0xffff_0000_0000_ffff,
        0x8142_2418_1824_4281,
        0x0123_4567_89ab_cdef,
        0xfedc_ba98_7654_3210,
        0x5555_aaaa_5555_aaaa,
    ];
    for sq in 0..64u8 {
        for occ in occupancies {
            assert_eq!(rook_attacks(&tables, 1 << sq, occ), walk(sq, occ, &STRAIGHT));
            assert_eq!(bishop_attacks(&tables, 1 << sq, occ), walk(sq, occ, &DIAGONAL));
            assert_eq!(gen_rook_attack(sq, occ), walk(sq, occ, &STRAIGHT));
            assert_eq!(gen_bishop_attack(sq, occ), walk(sq, occ, &DIAGONAL));
        }
    }
}

#[test]
fn nearest_blocker_is_attacked_and_nothing_beyond() {
    let tables = tables();
    // A rook on a1 with blockers on a4 and a6: a4 is attacked, a5 and
    // beyond are not.
    let occ = (1u64 << 24) | (1u64 << 40);
    let attack = rook_attacks(&tables, 1, occ);
    assert_ne!(attack & (1 << 24), 0);
    assert_eq!(attack & (1 << 32), 0);
    assert_eq!(attack & (1 << 40), 0);
    assert_eq!(attack & (1 << 56), 0);
    // A bishop on c1 with a blocker on e3: e3 is attacked, f4 is not.
    let attack = bishop_attacks(&tables, 1 << 2, 1 << 20);
    assert_ne!(attack & (1 << 20), 0);
    assert_eq!(attack & (1 << 29), 0);
}

#[test]
fn queen_is_rook_and_bishop() {
    let tables = tables();
    for sq in 0..64u8 {
        assert_eq!(
            rook_attacks(&tables, 1 << sq, 0) | bishop_attacks(&tables, 1 << sq, 0),
            queen_attacks(&tables, 1 << sq, 0)
        );
    }
    let occ = 0x0123_4567_89ab_cdefu64;
    assert_eq!(
        queen_attacks(&tables, 1 << 27, occ),
        rook_attacks(&tables, 1 << 27, occ) | bishop_attacks(&tables, 1 << 27, occ)
    );
    assert_eq!(queen_attacks(&tables, 1 << 27, 0), 0x8849_2a1c_f71c_2a49);
}

#[test]
fn sliders_on_several_squares() {
    let tables = tables();
    let rooks = (1u64 << 0) | (1u64 << 63);
    assert_eq!(
        rook_attacks(&tables, rooks, rooks),
        walk(0, rooks, &STRAIGHT) | walk(63, rooks, &STRAIGHT)
    );
    assert_eq!(rook_attacks(&tables, 0, 0), 0);
    assert_eq!(bishop_attacks(&tables, 0, u64::MAX), 0);
}

#[test]
fn relevance_masks() {
    assert_eq!(rook_mask(0), 0x0001_0101_0101_017e);
    assert_eq!(rook_mask(27), 0x0008_0808_7608_0800);
    assert_eq!(bishop_mask(0), 0x0040_2010_0804_0200);
    assert_eq!(bishop_mask(27), 0x0040_2214_0014_2200);
    let mut rook_entries = 0usize;
    let mut bishop_entries = 0usize;
    for sq in 0..64u8 {
        rook_entries += 1 << rook_mask(sq).count_ones();
        bishop_entries += 1 << bishop_mask(sq).count_ones();
        assert_eq!(rook_mask(sq) & (1 << sq), 0);
        assert_eq!(bishop_mask(sq) & (1 << sq), 0);
    }
    assert_eq!(rook_entries, 102400);
    assert_eq!(bishop_entries, 5248);
}

#[test]
fn knight_attack_sets() {
    let tables = tables();
    assert_eq!(knight_attacks_from(&tables, 1), 0x5_0800);
    assert_eq!(knight_attacks_from(&tables, 27), 0x1422_0022_1400);
    assert_eq!(knight_attacks_from(&tables, 63), 0x0020_4000_0000_0000);
    assert_eq!(knight_attacks(&tables, 1 << 27), 0x1422_0022_1400);
    assert_eq!(calc_knight_attacks(1 << 27), 0x1422_0022_1400);
    assert_eq!(calc_knight_attacks((1 << 1) | (1 << 63)), 0x0020_4000_0005_0800);
    assert_eq!(calc_knight_attacks(0), 0);
    assert_eq!(empty_board_attack(&tables, Piece::Knight, 1), 0x5_0800);
}

#[test]
fn king_attack_sets() {
    let tables = tables();
    assert_eq!(king_attacks_from(&tables, 4), 0x3828);
    assert_eq!(king_attacks_from(&tables, 0), 0x302);
    assert_eq!(king_attacks_from(&tables, 27), 0x1c_141c_0000);
    assert_eq!(king_attacks(&tables, 1 << 27), 0x1c_141c_0000);
    assert_eq!(calc_king_attacks(1 << 4), 0x3828);
    assert_eq!(empty_board_attack(&tables, Piece::King, 0), 0x302);
}

#[test]
fn empty_board_sliders() {
    let tables = tables();
    assert_eq!(empty_board_attack(&tables, Piece::Rook, 27), 0x0808_0808_f708_0808);
    assert_eq!(empty_board_attack(&tables, Piece::Bishop, 27), 0x8041_2214_0014_2241);
    assert_eq!(empty_board_attack(&tables, Piece::Queen, 27), 0x8849_2a1c_f71c_2a49);
}

#[test]
fn pawn_attack_sets() {
    assert_eq!(pawn_attacks_white(0xff00), 0xff_0000);
    assert_eq!(pawn_attacks_black(0xff << 48), 0xff00_0000_0000);
    assert_eq!(pawn_attacks_white((1 << 8) | (1 << 15)), 0x42_0000);
    assert_eq!(pawn_attacks(1 << 28, Color::White), (1 << 35) | (1 << 37));
    assert_eq!(pawn_attacks(1 << 28, Color::Black), (1 << 19) | (1 << 21));
    assert_eq!(pawn_attacks_white(0xff << 56), 0);
    assert_eq!(pawn_attacks_black(0xff), 0);
}

#[test]
fn attacks_of_a_side_in_the_start_position() {
    let tables = tables();
    let mut pos = Position::new();
    pos.from_fen("rnbqkbnr/pppppppp/8/8/8/8/PPPPPPPP/RNBQKBNR w KQkq - 0 1");
    // White attacks the third rank, and its own first and second rank but
    // for the corners.
    assert_eq!(all_attacks(&tables, &pos, Color::White), 0xff_ff7e);
    assert_eq!(all_attacks(&tables, &pos, Color::Black), 0x7eff_ff00_0000_0000);
}
