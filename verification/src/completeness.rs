//! Why the generator misses no legal move: a move that the rules of
//! movement allow and that leaves the own king safe is one that the
//! generator gives.

use vstd::prelude::*;
use crate::bits::{bb_has, group_has};
use crate::geometry::{
    between, on_line, king_reach, knight_reach, pawn_reach, rook_reach, bishop_reach,
    lemma_clear_between,
};
use crate::legality::{
    is_slider, aims, open_line, moved_to, lemma_slider_attacks, lemma_stepper_attacks,
    lemma_king_sq, lemma_between_chain, lemma_after_plain_move, lemma_kings_stay,
    lemma_generated_move_is_legal, lemma_after_ep, lemma_blocked,
};
use crate::moves::{
    move_src, move_dst, move_kind, lemma_move_word_of_fields, MOVE_NORMAL, MOVE_PROMO,
    MOVE_ENPASSANT, MOVE_CASTLE,
};
use crate::position::{Board, make_spec, behind};
use crate::rules::{
    generated, free_move, legal_move, non_king_move, king_move, castle_move, pin_ok,
    king_escape_squares, block_squares, single_check, the_checker, on_check_line, slider_checker,
    ALL_SQUARES, lemma_block_squares, lemma_king_escape_squares, lemma_generated_is_free,
    lemma_free_suits, ep_capture, ep_opens_straight, ep_opens_diagonal, occ_after_ep,
    lemma_occ_after_ep,
};
use crate::square::{lemma_square, lemma_rank_up};
use crate::things::{Piece, Color};

verus! {

broadcast use group_has;

/// Where `p` stands between `s` and `k`, the square `s` and every square
/// between `s` and `k` lie on the line through `p` and `k`.
pub proof fn lemma_line_of_pin(s: int, k: int, p: int, d: int)
    requires
        between(s, k, p),
        d != p,
        d == s || between(s, k, d),
    ensures
        on_line(p, d, k),
{
    lemma_square(s);
    lemma_square(k);
    lemma_square(p);
    lemma_square(d);
}

/// Two squares that both have `d` between themselves and `k` lie on one
/// ray from `k`: they are the same, or one lies between the other and `k`.
pub proof fn lemma_same_ray(c1: int, c2: int, k: int, d: int)
    requires
        between(c1, k, d),
        between(c2, k, d),
    ensures
        c1 == c2 || between(c1, k, c2) || between(c2, k, c1),
{
    lemma_square(c1);
    lemma_square(c2);
    lemma_square(k);
    lemma_square(d);
}

/// A neighbour of `k` on the line through `k` and `c`, other than `c`,
/// lies between the two or on the far side of `k`.
pub proof fn lemma_king_step_on_line(k: int, c: int, d: int)
    requires
        on_line(k, c, d),
        d != c,
        king_reach(k, d),
    ensures
        between(c, k, d) || between(c, d, k),
{
    lemma_square(c);
    lemma_square(k);
    lemma_square(d);
}

/// What a move of a piece other than the king has to it under the rules
/// of movement, en passant captures and castling apart.
pub open spec fn plain_free(b: Board, mv: u16) -> bool {
    let src = move_src(mv);
    let dst = move_dst(mv);
    &&& move_kind(mv) == MOVE_NORMAL || move_kind(mv) == MOVE_PROMO
    &&& src != dst
    &&& b.owned(src, b.side)
    &&& !b.owned(dst, b.side)
    &&& open_line(b, src, dst)
    &&& b.piece[src] == Piece::Knight ==> knight_reach(src, dst)
}

/// A move that the rules of movement allow, other than an en passant
/// capture or castling, has the facts of `plain_free` to it.
pub proof fn lemma_plain_free(b: Board, mv: u16)
    requires
        b.ready(),
        free_move(b, mv),
        move_kind(mv) == MOVE_NORMAL || move_kind(mv) == MOVE_PROMO,
    ensures
        plain_free(b, mv),
{
    let src = move_src(mv);
    let dst = move_dst(mv);
    lemma_move_word_of_fields(mv);
    lemma_square(src);
    lemma_square(dst);
    lemma_rank_up(src);
    assert((b.piece[dst] == Piece::NoPiece) <==> b.color[dst] == Color::NoColor);
    assert(open_line(b, src, dst)) by {
        if b.piece[src] == Piece::Pawn {
            assert forall|u: int| between(src, dst, u) implies !#[trigger] b.occupied(u) by {
                lemma_square(u);
            }
        } else if is_slider(b.piece[src]) {
            lemma_slider_attacks(b, src, dst);
        } else {
            assert forall|u: int| between(src, dst, u) implies !#[trigger] b.occupied(u) by {
                lemma_square(u);
            }
        }
    }
}

/// A piece of the other side that attacks a square before a move still
/// attacks it after the move, unless it is captured or the move ends
/// between the two.
pub proof fn lemma_attack_stays(b: Board, a: Board, src: int, dst: int, s: int, t: int)
    requires
        b.wf(),
        moved_to(b, a, src, dst),
        0 <= src < 64,
        0 <= dst < 64,
        0 <= s < 64,
        s != src,
        s != dst,
        b.attacks(s, t),
        !between(s, t, dst),
    ensures
        a.attacks(s, t),
{
    assert(a.piece[s] == b.piece[s] && a.color[s] == b.color[s]);
    if is_slider(b.piece[s]) {
        lemma_slider_attacks(b, s, t);
        lemma_slider_attacks(a, s, t);
        assert forall|u: int| between(s, t, u) implies !#[trigger] a.occupied(u) by {
            assert(!b.occupied(u));
            if u != src {
                assert(a.piece[u] == b.piece[u]);
            }
        }
    } else {
        lemma_stepper_attacks(b, a, s, t);
    }
}

/// A move that leaves the king safe keeps a pinned piece on the line
/// through itself and the king; a pinned knight has no such move.
pub proof fn lemma_pin_respected(b: Board, a: Board, mv: u16)
    requires
        b.ready(),
        plain_free(b, mv),
        move_src(mv) != b.king_sq(b.side),
        moved_to(b, a, move_src(mv), move_dst(mv)),
        !a.attacked_by(b.side.other(), b.king_sq(b.side)),
    ensures
        pin_ok(b, move_src(mv), move_dst(mv)),
        b.piece[move_src(mv)] == Piece::Knight ==> !b.pinned(move_src(mv)),
{
    let src = move_src(mv);
    let dst = move_dst(mv);
    let us = b.side;
    let them = us.other();
    let k = b.king_sq(us);
    lemma_move_word_of_fields(mv);
    lemma_king_sq(b, us);
    if b.pinned(src) && !on_line(src, dst, k) {
        let q = choose|q: int| #[trigger] b.pins(q, src);
        lemma_between_chain(k, q, src, src);
        assert(between(q, k, src));
        if dst == q || between(q, k, dst) {
            lemma_line_of_pin(q, k, src, dst);
        }
        assert(a.piece[q] == b.piece[q] && a.color[q] == b.color[q]);
        lemma_slider_attacks(a, q, k);
        lemma_square(q);
        lemma_square(k);
        assert(aims(a, q, k));
        assert forall|u: int| between(q, k, u) implies !#[trigger] a.occupied(u) by {
            lemma_between_chain(q, k, u, u);
            assert(between(k, q, u));
            if u != src {
                assert(!b.occupied(u));
                assert(a.piece[u] == b.piece[u]);
            }
        }
        assert(a.owned(q, them) && a.attacks(q, k));
    }
    if b.piece[src] == Piece::Knight {
        lemma_square(src);
        lemma_square(dst);
        assert(!on_line(src, dst, k));
    }
}

/// Where the side to move is in check and a move of a piece other than
/// the king leaves the king safe, one piece alone gave check, and the move
/// captures it or ends between it and the king.
pub proof fn lemma_check_answered(b: Board, a: Board, mv: u16)
    requires
        b.ready(),
        plain_free(b, mv),
        move_src(mv) != b.king_sq(b.side),
        moved_to(b, a, move_src(mv), move_dst(mv)),
        !king_reach(b.king_sq(b.side.other()), b.king_sq(b.side)),
        b.in_check(b.side),
        !a.attacked_by(b.side.other(), b.king_sq(b.side)),
    ensures
        single_check(b),
        move_dst(mv) == the_checker(b) || between(the_checker(b), b.king_sq(b.side), move_dst(mv)),
{
    let src = move_src(mv);
    let dst = move_dst(mv);
    let us = b.side;
    let them = us.other();
    let k = b.king_sq(us);
    lemma_move_word_of_fields(mv);
    lemma_king_sq(b, us);
    lemma_king_sq(b, them);
    let c = choose|s: int| #[trigger] b.owned(s, them) && b.attacks(s, k);
    assert(b.checker(c)) by {
        if b.piece[c] == Piece::King {
            assert(b.holds(c, Piece::King, them));
        }
    }
    assert forall|d: int| b.checker(d) implies d == dst || between(d, k, dst) by {
        if d != dst && !between(d, k, dst) {
            lemma_attack_stays(b, a, src, dst, d, k);
            assert(a.color[d] == b.color[d]);
            assert(a.owned(d, them) && a.attacks(d, k));
        }
    }
    assert forall|d: int| b.checker(d) implies d == c by {
        if d != c {
            assert((b.piece[c] == Piece::NoPiece) <==> b.color[c] == Color::NoColor);
            assert((b.piece[d] == Piece::NoPiece) <==> b.color[d] == Color::NoColor);
            assert(b.occupied(c) && b.occupied(d));
            if between(c, k, dst) && between(d, k, dst) {
                lemma_same_ray(c, d, k, dst);
                if between(c, k, d) {
                    lemma_blocked(b, c, d, k);
                } else {
                    lemma_blocked(b, d, c, k);
                }
            } else if between(c, k, dst) {
                assert(d == dst);
                lemma_blocked(b, c, d, k);
            } else {
                assert(c == dst && between(d, k, dst));
                lemma_blocked(b, d, c, k);
            }
        }
    }
    assert(b.checker(c) && forall|d: int| b.checker(d) ==> d == c);
    assert(single_check(b));
    assert(b.checker(the_checker(b)));
}

/// A king move that leaves the king safe goes to a square that was not
/// attacked, and not along the line of a sliding check.
pub proof fn lemma_king_escapes(b: Board, a: Board, mv: u16)
    requires
        b.ready(),
        move_kind(mv) == MOVE_NORMAL,
        move_src(mv) == b.king_sq(b.side),
        king_reach(move_src(mv), move_dst(mv)),
        !b.owned(move_dst(mv), b.side),
        moved_to(b, a, move_src(mv), move_dst(mv)),
        !a.attacked_by(b.side.other(), move_dst(mv)),
    ensures
        !b.attacked_by(b.side.other(), move_dst(mv)),
        !on_check_line(b, move_dst(mv)),
{
    let dst = move_dst(mv);
    let us = b.side;
    let them = us.other();
    let k = b.king_sq(us);
    lemma_move_word_of_fields(mv);
    lemma_king_sq(b, us);
    if b.attacked_by(them, dst) {
        let s = choose|s: int| #[trigger] b.owned(s, them) && b.attacks(s, dst);
        assert(s != k);
        assert(s != dst) by {
            lemma_square(s);
            if is_slider(b.piece[s]) {
                lemma_slider_attacks(b, s, dst);
            }
        }
        assert(!between(s, dst, dst)) by {
            lemma_square(s);
            lemma_square(dst);
        }
        lemma_attack_stays(b, a, k, dst, s, dst);
        assert(a.color[s] == b.color[s]);
        assert(a.owned(s, them) && a.attacks(s, dst));
    }
    if on_check_line(b, dst) {
        let c = choose|c: int| #[trigger]
            slider_checker(b, c) && on_line(k, c, dst) && dst != c;
        lemma_king_step_on_line(k, c, dst);
        lemma_slider_attacks(b, c, k);
        lemma_slider_attacks(b, c, dst);
        lemma_slider_attacks(a, c, dst);
        assert(a.piece[c] == b.piece[c] && a.color[c] == b.color[c]);
        if between(c, k, dst) {
            // The king steps towards the checking piece: the square was
            // attacked already.
            lemma_between_chain(c, k, dst, dst);
            assert forall|u: int| between(c, dst, u) implies !#[trigger] b.occupied(u) by {
                lemma_between_chain(c, k, dst, u);
            }
            assert(b.owned(c, them) && b.attacks(c, dst));
        } else {
            // The king steps away along the line: the piece attacks the
            // square through the king's old square.
            lemma_between_chain(c, dst, k, k);
            assert forall|u: int| between(c, dst, u) implies !#[trigger] a.occupied(u) by {
                lemma_between_chain(c, dst, k, u);
                if u != k {
                    assert(between(c, k, u));
                    assert(!b.occupied(u));
                    assert(a.piece[u] == b.piece[u]);
                }
            }
            assert(a.owned(c, them) && a.attacks(c, dst));
        }
    }
}

/// A legal move that is no en passant capture is one that the generator
/// gives.
pub proof fn lemma_legal_is_generated(b: Board, mv: u16)
    requires
        b.legal(),
        legal_move(b, mv),
        move_kind(mv) != MOVE_ENPASSANT,
    ensures
        generated(b, mv),
{
    let a = make_spec(b, mv);
    let us = b.side;
    let them = us.other();
    let k = b.king_sq(us);
    let src = move_src(mv);
    let dst = move_dst(mv);
    lemma_move_word_of_fields(mv);
    lemma_king_sq(b, us);
    lemma_king_sq(b, them);
    lemma_free_suits(b, mv);
    lemma_kings_stay(b, mv);
    assert(!king_reach(b.king_sq(them), k)) by {
        if king_reach(k, b.king_sq(them)) {
            assert(b.owned(k, us) && b.attacks(k, b.king_sq(them)));
        }
        lemma_square(k);
        lemma_square(b.king_sq(them));
    }
    if move_kind(mv) == MOVE_CASTLE {
        assert(castle_move(b, mv));
        assert(!b.in_check(us));
    } else {
        lemma_after_plain_move(b, mv);
        assert((b.piece[src] == Piece::NoPiece) <==> b.color[src] == Color::NoColor);
        assert(moved_to(b, a, src, dst));
        lemma_plain_free(b, mv);
        if src == k {
            assert(b.piece[src] == Piece::King);
            lemma_king_escapes(b, a, mv);
            lemma_king_escape_squares(b);
            if b.in_check(us) {
                assert(king_move(b, king_escape_squares(b), mv));
            } else {
                assert(king_move(b, ALL_SQUARES, mv));
            }
        } else {
            assert(b.piece[src] != Piece::King) by {
                if b.piece[src] == Piece::King {
                    assert(b.holds(src, Piece::King, us));
                }
            }
            lemma_pin_respected(b, a, mv);
            if b.in_check(us) {
                lemma_check_answered(b, a, mv);
                lemma_block_squares(b);
                assert(non_king_move(b, block_squares(b), mv));
            } else {
                assert(non_king_move(b, ALL_SQUARES, mv));
            }
        }
    }
}

/// A pawn that gives check and the square behind it: that square does not
/// lie between any square and the king.
proof fn lemma_ep_no_block(them: Color, victim: int, k: int, c: int)
    requires
        pawn_reach(victim, them, k),
        them != Color::NoColor,
    ensures
        !between(c, k, behind(victim, them)),
{
    lemma_square(victim);
    lemma_square(k);
    lemma_rank_up(victim);
    if 0 <= c < 64 {
        lemma_square(c);
    }
    if 0 <= behind(victim, them) < 64 {
        lemma_square(behind(victim, them));
    }
}

/// A slider that reaches the king over the squares that are occupied after
/// an en passant capture attacks the king after the capture.
proof fn lemma_ep_line_opened(b: Board, a: Board, mv: u16, q: int)
    requires
        b.ready(),
        0 <= move_dst(mv) < 64,
        move_dst(mv) == b.ep,
        b.empty(move_dst(mv)),
        b.holds(move_src(mv), Piece::Pawn, b.side),
        b.holds(behind(b.ep as int, b.side), Piece::Pawn, b.side.other()),
        crate::legality::captured_en_passant(
            b,
            a,
            move_src(mv),
            move_dst(mv),
            behind(b.ep as int, b.side),
        ),
        b.owned(q, b.side.other()),
        ({
            let k = b.king_sq(b.side);
            let occ = occ_after_ep(b, move_src(mv));
            ||| ((b.piece[q] == Piece::Rook || b.piece[q] == Piece::Queen) && rook_reach(k, occ, q))
            ||| ((b.piece[q] == Piece::Bishop || b.piece[q] == Piece::Queen) && bishop_reach(
                k,
                occ,
                q,
            ))
        }),
    ensures
        a.attacked_by(b.side.other(), b.king_sq(b.side)),
{
    let us = b.side;
    let them = us.other();
    let k = b.king_sq(us);
    let src = move_src(mv);
    let dst = move_dst(mv);
    let victim = behind(b.ep as int, us);
    lemma_occ_after_ep(b, src);
    lemma_clear_between(k, q, occ_after_ep(b, src));
    assert(q != src && q != dst && q != victim);
    assert(a.piece[q] == b.piece[q] && a.color[q] == b.color[q]);
    lemma_slider_attacks(a, q, k);
    lemma_square(q);
    lemma_square(k);
    assert forall|u: int| between(q, k, u) implies !#[trigger] a.occupied(u) by {
        lemma_between_chain(q, k, u, u);
        assert(between(k, q, u));
        assert(!bb_has(occ_after_ep(b, src), u));
        if u != src && u != victim && u != dst {
            assert(a.piece[u] == b.piece[u]);
        }
    }
    assert(a.owned(q, them) && a.attacks(q, k));
}

/// A legal en passant capture is one that the generator gives.
pub proof fn lemma_legal_ep_is_generated(b: Board, mv: u16)
    requires
        b.legal(),
        legal_move(b, mv),
        move_kind(mv) == MOVE_ENPASSANT,
    ensures
        generated(b, mv),
{
    let a = make_spec(b, mv);
    let us = b.side;
    let them = us.other();
    let k = b.king_sq(us);
    let src = move_src(mv);
    let dst = move_dst(mv);
    let victim = behind(dst, us);
    lemma_move_word_of_fields(mv);
    lemma_king_sq(b, us);
    lemma_king_sq(b, them);
    lemma_free_suits(b, mv);
    lemma_kings_stay(b, mv);
    lemma_square(src);
    lemma_square(dst);
    lemma_rank_up(dst);
    lemma_after_ep(b, mv);
    assert(b.holds(victim, Piece::Pawn, them));
    assert(k != src && k != dst && k != victim);
    assert(!a.attacked_by(them, k));
    // No rook, bishop or queen looks at the king once both pawns are gone.
    if ep_opens_straight(b, src) {
        let q = choose|q: int|
            (#[trigger] b.holds(q, Piece::Rook, them) || b.holds(q, Piece::Queen, them))
                && rook_reach(k, occ_after_ep(b, src), q);
        lemma_ep_line_opened(b, a, mv, q);
    }
    if ep_opens_diagonal(b, src) {
        let q = choose|q: int|
            (#[trigger] b.holds(q, Piece::Bishop, them) || b.holds(q, Piece::Queen, them))
                && bishop_reach(k, occ_after_ep(b, src), q);
        lemma_ep_line_opened(b, a, mv, q);
    }
    // A pinned pawn stays on the pin line.
    if b.pinned(src) && !on_line(src, dst, k) {
        let q = choose|q: int| #[trigger] b.pins(q, src);
        lemma_between_chain(k, q, src, src);
        assert(between(q, k, src));
        if dst == q || between(q, k, dst) {
            lemma_line_of_pin(q, k, src, dst);
        }
        assert(b.occupied(victim));
        assert(q != victim) by {
            assert(b.piece[q] != Piece::Pawn);
        }
        assert(a.piece[q] == b.piece[q] && a.color[q] == b.color[q]);
        lemma_slider_attacks(a, q, k);
        lemma_square(q);
        lemma_square(k);
        assert(aims(a, q, k));
        assert forall|u: int| between(q, k, u) implies !#[trigger] a.occupied(u) by {
            lemma_between_chain(q, k, u, u);
            assert(between(k, q, u));
            if u != src {
                assert(!b.occupied(u));
                assert(u != victim);
                assert(a.piece[u] == b.piece[u]);
            }
        }
        assert(a.owned(q, them) && a.attacks(q, k));
    }
    assert(ep_capture(b, ALL_SQUARES, mv));
    // In check, one piece alone gives check, and the capture answers it.
    if b.in_check(us) {
        assert(!king_reach(b.king_sq(them), k)) by {
            if king_reach(k, b.king_sq(them)) {
                assert(b.owned(k, us) && b.attacks(k, b.king_sq(them)));
            }
            lemma_square(k);
            lemma_square(b.king_sq(them));
        }
        let c = choose|s: int| #[trigger] b.owned(s, them) && b.attacks(s, k);
        assert(b.checker(c)) by {
            if b.piece[c] == Piece::King {
                assert(b.holds(c, Piece::King, them));
            }
        }
        assert forall|d: int| b.checker(d) implies d == victim || between(d, k, dst) by {
            if d != victim && !between(d, k, dst) {
                assert(d != src && d != dst);
                assert(a.piece[d] == b.piece[d] && a.color[d] == b.color[d]);
                if is_slider(b.piece[d]) {
                    lemma_slider_attacks(b, d, k);
                    lemma_slider_attacks(a, d, k);
                    assert forall|u: int| between(d, k, u) implies !#[trigger] a.occupied(u) by {
                        assert(!b.occupied(u));
                        if u != src && u != victim {
                            assert(a.piece[u] == b.piece[u]);
                        }
                    }
                } else {
                    lemma_stepper_attacks(b, a, d, k);
                }
                assert(a.owned(d, them) && a.attacks(d, k));
            }
        }
        assert forall|d: int| b.checker(d) implies d == c by {
            if d != c {
                assert((b.piece[c] == Piece::NoPiece) <==> b.color[c] == Color::NoColor);
                assert((b.piece[d] == Piece::NoPiece) <==> b.color[d] == Color::NoColor);
                if between(c, k, dst) && between(d, k, dst) {
                    lemma_same_ray(c, d, k, dst);
                    if between(c, k, d) {
                        lemma_blocked(b, c, d, k);
                    } else {
                        lemma_blocked(b, d, c, k);
                    }
                } else if c == victim {
                    lemma_ep_no_block(them, victim, k, d);
                } else {
                    lemma_ep_no_block(them, victim, k, c);
                }
            }
        }
        assert(b.checker(c) && forall|d: int| b.checker(d) ==> d == c);
        assert(single_check(b));
        assert(b.checker(the_checker(b)));
        lemma_block_squares(b);
        assert(ep_capture(b, block_squares(b), mv));
    }
}

/// Every legal move is one that the generator gives.
pub proof fn lemma_generator_is_complete(b: Board, mv: u16)
    requires
        b.legal(),
        legal_move(b, mv),
    ensures
        generated(b, mv),
{
    if move_kind(mv) == MOVE_ENPASSANT {
        lemma_legal_ep_is_generated(b, mv);
    } else {
        lemma_legal_is_generated(b, mv);
    }
}

/// On a legal board the generator gives exactly the legal moves.
pub proof fn lemma_generated_iff_legal(b: Board, mv: u16)
    requires
        b.legal(),
    ensures
        generated(b, mv) == legal_move(b, mv),
{
    if generated(b, mv) {
        lemma_generated_is_free(b, mv);
        lemma_generated_move_is_legal(b, mv);
    }
    if legal_move(b, mv) {
        lemma_generator_is_complete(b, mv);
    }
}

} // verus!
