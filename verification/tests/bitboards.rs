use chess_core::attack;
use chess_core::bitboard::{
    bb_between, bb_east, bb_flip, bb_from_sq, bb_lsb, bb_north, bb_pop, bb_popcnt, bb_ray,
    bb_south, bb_text, bb_west, init, pawn_advances, Tables, FILE_BITBOARDS, RANK_BITBOARDS,
};
use chess_core::things::Color;

fn all_tables() -> Tables {
    init(attack::init().expect("the multipliers are sound"))
}

#[test]
fn rank_and_file_masks() {
    for r in 0..8 {
        assert_eq!(RANK_BITBOARDS[r], 0xffu64 << (8 * r));
    }
    for f in 0..8 {
        assert_eq!(FILE_BITBOARDS[f], 0x0101_0101_0101_0101u64 << f);
    }
}

#[test]
fn single_square_bitboards() {
    assert_eq!(bb_from_sq(0), 1);
    assert_eq!(bb_from_sq(28), 1 << 28);
    assert_eq!(bb_from_sq(63), 0x8000_0000_0000_0000);
}

#[test]
fn least_significant_bit() {
    assert_eq!(bb_lsb(1), 0);
    assert_eq!(bb_lsb(0x8000_0000_0000_0000), 63);
    assert_eq!(bb_lsb(0b1011_0000), 4);
    assert_eq!(bb_lsb(0xffff_ffff_ffff_ffff), 0);
    assert_eq!(bb_lsb(0), 64);
}

#[test]
fn pop_removes_the_lowest_member() {
    let mut bb: u64 = 0b1011_0000;
    assert_eq!(bb_pop(&mut bb), 4);
    assert_eq!(bb, 0b1010_0000);
    assert_eq!(bb_pop(&mut bb), 5);
    assert_eq!(bb, 0b1000_0000);
    assert_eq!(bb_pop(&mut bb), 7);
    assert_eq!(bb, 0);
    let mut top: u64 = 0x8000_0000_0000_0000;
    assert_eq!(bb_pop(&mut top), 63);
    assert_eq!(top, 0);
}

#[test]
fn pop_visits_every_member_once() {
    let start: u64 = 0x8100_0042_0000_2481;
    let mut bb = start;
    let mut seen: u64 = 0;
    let mut count = 0;
    while bb != 0 {
        let sq = bb_pop(&mut bb);
        assert_eq!(seen & (1 << sq), 0);
        seen |= 1 << sq;
        count += 1;
    }
    assert_eq!(seen, start);
    assert_eq!(count, bb_popcnt(start));
}

#[test]
fn shifts_by_a_rank() {
    assert_eq!(bb_north(0xff), 0xff00);
    assert_eq!(bb_north(0xff00_0000_0000_0000), 0);
    assert_eq!(bb_south(0xff00), 0xff);
    assert_eq!(bb_south(0xff), 0);
    assert_eq!(bb_north(1 << 28), 1 << 36);
    assert_eq!(bb_south(1 << 28), 1 << 20);
}

#[test]
fn shifts_by_a_file_do_not_wrap() {
    assert_eq!(bb_east(1), 2);
    assert_eq!(bb_east(0x80), 0);
    assert_eq!(bb_east(0x8080_8080_8080_8080), 0);
    assert_eq!(bb_east(0x0101_0101_0101_0101), 0x0202_0202_0202_0202);
    assert_eq!(bb_west(2), 1);
    assert_eq!(bb_west(1), 0);
    assert_eq!(bb_west(0x0101_0101_0101_0101), 0);
    assert_eq!(bb_west(0x8080_8080_8080_8080), 0x4040_4040_4040_4040);
    assert_eq!(bb_west(0x100), 0);
    assert_eq!(bb_east(0x8000), 0);
}

#[test]
fn population_count() {
    assert_eq!(bb_popcnt(0), 0);
    assert_eq!(bb_popcnt(1), 1);
    assert_eq!(bb_popcnt(0xff), 8);
    assert_eq!(bb_popcnt(0x8000_0000_0000_0001), 2);
    assert_eq!(bb_popcnt(0xffff_ffff_ffff_ffff), 64);
    for value in [0u64, 5, 0xdead_beef, 0x0123_4567_89ab_cdef, u64::MAX] {
        assert_eq!(bb_popcnt(value), value.count_ones());
    }
}

#[test]
fn flip_reverses_the_ranks() {
    assert_eq!(bb_flip(0x0102_0304_0506_0708), 0x0807_0605_0403_0201);
    assert_eq!(bb_flip(0xff), 0xff00_0000_0000_0000);
    assert_eq!(bb_flip(1 << 12), 1 << 52);
    for value in [0u64, 1, 0xdead_beef, 0x0123_4567_89ab_cdef, u64::MAX] {
        assert_eq!(bb_flip(value), value.swap_bytes());
        assert_eq!(bb_flip(bb_flip(value)), value);
    }
}

#[test]
fn squares_between() {
    let tables = all_tables();
    assert_eq!(bb_between(&tables, 0, 63), 0x0040_2010_0804_0200);
    assert_eq!(bb_between(&tables, 63, 0), 0x0040_2010_0804_0200);
    assert_eq!(bb_between(&tables, 0, 56), 0x0001_0101_0101_0100);
    assert_eq!(bb_between(&tables, 2, 29), 0x10_0800);
    assert_eq!(bb_between(&tables, 0, 17), 0);
    assert_eq!(bb_between(&tables, 0, 1), 0);
    assert_eq!(bb_between(&tables, 0, 9), 0);
    assert_eq!(bb_between(&tables, 5, 5), 0);
    assert_eq!(bb_between(&tables, 24, 31), 0x7e00_0000);
}

#[test]
fn lines_through_two_squares() {
    let tables = all_tables();
    assert_eq!(bb_ray(&tables, 0, 63), 0x8040_2010_0804_0201);
    assert_eq!(bb_ray(&tables, 2, 29), 0x8040_2010_0804);
    assert_eq!(bb_ray(&tables, 4, 28), 0x1010_1010_1010_1010);
    assert_eq!(bb_ray(&tables, 24, 31), 0xff00_0000);
    assert_eq!(bb_ray(&tables, 25, 26), 0xff00_0000);
    assert_eq!(bb_ray(&tables, 7, 56), 0x0102_0408_1020_4080);
    assert_eq!(bb_ray(&tables, 0, 17), 0);
    assert_eq!(bb_ray(&tables, 9, 9), 0);
}

#[test]
fn between_and_line_agree_for_every_pair() {
    let tables = all_tables();
    for a in 0..64u8 {
        for b in 0..64u8 {
            let between = bb_between(&tables, a, b);
            let line = bb_ray(&tables, a, b);
            assert_eq!(between, bb_between(&tables, b, a));
            assert_eq!(line, bb_ray(&tables, b, a));
            assert_eq!(between & !line, 0);
            if line != 0 {
                assert_ne!(line & (1 << a), 0);
                assert_ne!(line & (1 << b), 0);
                assert_eq!(between & ((1 << a) | (1 << b)), 0);
            }
        }
    }
}

#[test]
fn white_pawn_advances() {
    // A pawn on e2 with nothing in the way goes to e3 and e4.
    assert_eq!(pawn_advances(1 << 12, 1 << 12, Color::White), (1 << 20) | (1 << 28));
    // Blocked on e3: no advance at all.
    assert_eq!(pawn_advances(1 << 12, (1 << 12) | (1 << 20), Color::White), 0);
    // Blocked on e4: only e3.
    assert_eq!(pawn_advances(1 << 12, (1 << 12) | (1 << 28), Color::White), 1 << 20);
    // A pawn on e3 goes one square only.
    assert_eq!(pawn_advances(1 << 20, 1 << 20, Color::White), 1 << 28);
    // All eight pawns on the second rank.
    assert_eq!(pawn_advances(0xff00, 0xffff, Color::White), 0xffff_0000);
}

#[test]
fn black_pawn_advances() {
    assert_eq!(pawn_advances(1 << 52, 1 << 52, Color::Black), (1 << 44) | (1 << 36));
    assert_eq!(pawn_advances(1 << 52, (1 << 52) | (1 << 44), Color::Black), 0);
    assert_eq!(pawn_advances(1 << 52, (1 << 52) | (1 << 36), Color::Black), 1 << 44);
    assert_eq!(pawn_advances(1 << 44, 1 << 44, Color::Black), 1 << 36);
    assert_eq!(
        pawn_advances(0xff << 48, 0xffff << 48, Color::Black),
        0xffff_0000_0000
    );
}

#[test]
fn bitboard_drawing() {
    let text = bb_text((1 << 0) | (1 << 63));
    let expected = "\n     A   B   C   D   E   F   G   H\n   +---+---+---+---+---+---+---+---+\n 8 |   |   |   |   |   |   |   | X |\n   +---+---+---+---+---+---+---+---+\n 7 |   |   |   |   |   |   |   |   |\n   +---+---+---+---+---+---+---+---+\n 6 |   |   |   |   |   |   |   |   |\n   +---+---+---+---+---+---+---+---+\n 5 |   |   |   |   |   |   |   |   |\n   +---+---+---+---+---+---+---+---+\n 4 |   |   |   |   |   |   |   |   |\n   +---+---+---+---+---+---+---+---+\n 3 |   |   |   |   |   |   |   |   |\n   +---+---+---+---+---+---+---+---+\n 2 |   |   |   |   |   |   |   |   |\n   +---+---+---+---+---+---+---+---+\n 1 | X |   |   |   |   |   |   |   |\n   +---+---+---+---+---+---+---+---+\n     A   B   C   D   E   F   G   H\n";
    assert_eq!(text, expected);
}
