use chess_core::attack;
use chess_core::attack::{bishop_attacks, rook_attacks};
use chess_core::bitboard;
use chess_core::bitboard::{bb_between, bb_ray};
use chess_core::magic::{init_slider, BISHOP_MAGIC, ROOK_MAGIC};

#[test]
fn tables_have_the_published_sizes() {
    let attack = attack::init().expect("the multipliers are sound");
    assert_eq!(attack.bishop_table_len(), 5248);
    assert_eq!(attack.rook_table_len(), 102400);
    let _tables = bitboard::init(attack);
}

#[test]
fn multipliers_are_sound() {
    assert!(init_slider(true).is_some());
    assert!(init_slider(false).is_some());
    assert_eq!(ROOK_MAGIC[0], 0xd080_0440_0014_8022);
    assert_eq!(ROOK_MAGIC[63], 0x2008_0040_2104_0082);
    assert_eq!(BISHOP_MAGIC[0], 0x0710_8230_0420_8010);
    assert_eq!(BISHOP_MAGIC[63], 0x0428_1004_0a44_10a1);
}

#[test]
fn slider_table_lookup() {
    let rook = init_slider(true).expect("the rook multipliers are sound");
    let bishop = init_slider(false).expect("the bishop multipliers are sound");
    assert_eq!(rook.len(), 102400);
    assert_eq!(bishop.len(), 5248);
    assert_eq!(rook.lookup(true, 27, 0), 0x0808_0808_f708_0808);
    assert_eq!(bishop.lookup(false, 27, 0), 0x8041_2214_0014_2241);
    assert_eq!(rook.lookup(true, 27, 0x0800_2200_0800), 0x0808_3608_0800);
}

#[test]
fn building_the_tables_twice_gives_the_same_tables() {
    let first = bitboard::init(attack::init().expect("the multipliers are sound"));
    let second = bitboard::init(attack::init().expect("the multipliers are sound"));
    assert_eq!(first.attack().rook_table_len(), second.attack().rook_table_len());
    assert_eq!(first.attack().bishop_table_len(), second.attack().bishop_table_len());
    let occupancies = [0u64, u64::MAX, 0x0123_4567_89ab_cdef, 0x00ff_00ff_00ff_00ff];
    for sq in 0..64u8 {
        for occ in occupancies {
            assert_eq!(
                rook_attacks(first.attack(), 1 << sq, occ),
                rook_attacks(second.attack(), 1 << sq, occ)
            );
            assert_eq!(
                bishop_attacks(first.attack(), 1 << sq, occ),
                bishop_attacks(second.attack(), 1 << sq, occ)
            );
        }
        for other in 0..64u8 {
            assert_eq!(bb_between(&first, sq, other), bb_between(&second, sq, other));
            assert_eq!(bb_ray(&first, sq, other), bb_ray(&second, sq, other));
        }
    }
}
