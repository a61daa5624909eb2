use chess_core::moves::{
    mv_create_castle, mv_create_ep, mv_create_normal, mv_create_promo, mv_get_dst, mv_get_kind,
    mv_get_promo_piece, mv_get_src, MOVE_CASTLE, MOVE_ENPASSANT, MOVE_NORMAL, MOVE_PROMO,
    PROMOTION_RANKS,
};
use chess_core::things::Piece;

#[test]
fn move_kinds() {
    assert_eq!(MOVE_NORMAL, 0);
    assert_eq!(MOVE_PROMO, 1);
    assert_eq!(MOVE_ENPASSANT, 2);
    assert_eq!(MOVE_CASTLE, 3);
    assert_eq!(PROMOTION_RANKS, [7, 0]);
}

#[test]
fn move_word_layout() {
    // e2e4: source 12, destination 28.
    assert_eq!(mv_create_normal(12, 28), 1804);
    // e7e8 promoting to a queen.
    assert_eq!(mv_create_promo(52, 60, 4), 57140);
    // a7a8 promoting to a knight.
    assert_eq!(mv_create_promo(48, 56, 1), 7728);
    // White castles short.
    assert_eq!(mv_create_castle(4, 6), 12676);
    // e5 takes d6 en passant.
    assert_eq!(mv_create_ep(36, 43), 10980);
    assert_eq!(mv_create_normal(0, 0), 0);
    assert_eq!(mv_create_promo(63, 63, 4), 0xffff & ((3 << 14) | (1 << 12) | (63 << 6) | 63));
}

#[test]
fn fields_of_a_move_word() {
    let mv = mv_create_promo(52, 60, 3);
    assert_eq!(mv_get_src(mv), 52);
    assert_eq!(mv_get_dst(mv), 60);
    assert_eq!(mv_get_kind(mv), MOVE_PROMO);
    assert_eq!(mv_get_promo_piece(mv), Piece::Rook);
    let mv = mv_create_castle(60, 58);
    assert_eq!(mv_get_src(mv), 60);
    assert_eq!(mv_get_dst(mv), 58);
    assert_eq!(mv_get_kind(mv), MOVE_CASTLE);
    let mv = mv_create_ep(33, 40);
    assert_eq!(mv_get_src(mv), 33);
    assert_eq!(mv_get_dst(mv), 40);
    assert_eq!(mv_get_kind(mv), MOVE_ENPASSANT);
}

#[test]
fn promotion_pieces() {
    assert_eq!(mv_get_promo_piece(mv_create_promo(8, 0, 1)), Piece::Knight);
    assert_eq!(mv_get_promo_piece(mv_create_promo(8, 0, 2)), Piece::Bishop);
    assert_eq!(mv_get_promo_piece(mv_create_promo(8, 0, 3)), Piece::Rook);
    assert_eq!(mv_get_promo_piece(mv_create_promo(8, 0, 4)), Piece::Queen);
    // The two bits are read whatever the kind.
    assert_eq!(mv_get_promo_piece(mv_create_normal(8, 0)), Piece::Knight);
}

#[test]
fn every_move_word_round_trips() {
    for src in 0..64u8 {
        for dst in 0..64u8 {
            let normal = mv_create_normal(src, dst);
            assert_eq!(
                (mv_get_src(normal), mv_get_dst(normal), mv_get_kind(normal)),
                (src, dst, MOVE_NORMAL)
            );
            assert_eq!(normal >> 14, 0);
            let castle = mv_create_castle(src, dst);
            assert_eq!(
                (mv_get_src(castle), mv_get_dst(castle), mv_get_kind(castle)),
                (src, dst, MOVE_CASTLE)
            );
            let ep = mv_create_ep(src, dst);
            assert_eq!(
                (mv_get_src(ep), mv_get_dst(ep), mv_get_kind(ep)),
                (src, dst, MOVE_ENPASSANT)
            );
            for piece in 1..=4u8 {
                let promo = mv_create_promo(src, dst, piece);
                assert_eq!(
                    (mv_get_src(promo), mv_get_dst(promo), mv_get_kind(promo)),
                    (src, dst, MOVE_PROMO)
                );
                assert_eq!(promo >> 14, (piece - 1) as u16);
            }
        }
    }
}
