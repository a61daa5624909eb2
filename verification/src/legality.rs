//! Why the moves the generator gives are legal: after any of them the king
//! of the side that moved is not attacked.

use vstd::prelude::*;
use crate::bits::{bb_has, lemma_bb_of};
use crate::geometry::{
    between, on_line, aligned, straight, diagonal, clear, dist, rook_reach, bishop_reach,
    king_reach, pawn_reach, lemma_clear_between,
};
use crate::moves::{
    move_src, move_dst, move_kind, move_promo, promo_piece, lemma_move_word_of_fields, MOVE_NORMAL,
    MOVE_PROMO, MOVE_ENPASSANT, MOVE_CASTLE,
};
use crate::position::{
    Board, make_spec, castle_rook_src, castle_rook_dst, home, behind, move_suits,
    lemma_make_suits,
    CASTLE_RIGHTS,
};
use crate::rules::{
    free_move, generated, non_king_move, castle_move, pin_ok, castle_open, king_escape_squares,
    block_squares, single_check, the_checker, on_check_line, slider_checker, ALL_SQUARES,
    lemma_rules_exclusive, lemma_block_squares, lemma_king_escape_squares, ep_exposes_king,
    ep_opens_straight, ep_opens_diagonal, occ_after_ep, lemma_occ_after_ep,
};
use crate::square::{lemma_square, lemma_rank_up};
use crate::things::{Piece, Color, WHITE_OO, WHITE_OOO, BLACK_OO, BLACK_OOO};

verus! {

/// A bishop, rook or queen.
pub open spec fn is_slider(piece: Piece) -> bool {
    piece == Piece::Bishop || piece == Piece::Rook || piece == Piece::Queen
}

/// The slider on `s` stands on a line of its kind with `t`.
pub open spec fn aims(b: Board, s: int, t: int) -> bool {
    ||| ((b.piece[s] == Piece::Bishop || b.piece[s] == Piece::Queen) && diagonal(s, t))
    ||| ((b.piece[s] == Piece::Rook || b.piece[s] == Piece::Queen) && straight(s, t))
}

/// No piece stands strictly between `s` and `t`.
pub open spec fn open_line(b: Board, s: int, t: int) -> bool {
    forall|u: int| between(s, t, u) ==> !#[trigger] b.occupied(u)
}

/// A slider attacks along its lines as far as they are open.
pub proof fn lemma_slider_attacks(b: Board, s: int, t: int)
    requires
        0 <= s < 64,
        is_slider(b.piece[s]),
    ensures
        b.attacks(s, t) == (aims(b, s, t) && open_line(b, s, t)),
{
    lemma_bb_of(|u: int| b.occupied(u));
    if aligned(s, t) {
        lemma_clear_between(s, t, b.occ());
        if open_line(b, s, t) {
            assert forall|u: int| between(s, t, u) implies !bb_has(b.occ(), u) by {
                assert(!b.occupied(u));
            }
        }
        if clear(s, t, b.occ()) {
            assert forall|u: int| between(s, t, u) implies !#[trigger] b.occupied(u) by {
                assert(!bb_has(b.occ(), u));
            }
        }
    }
}

/// What a pawn, knight or king attacks does not depend on other pieces.
pub proof fn lemma_stepper_attacks(b: Board, a: Board, s: int, t: int)
    requires
        0 <= s < 64,
        !is_slider(b.piece[s]),
        a.piece[s] == b.piece[s],
        a.color[s] == b.color[s],
    ensures
        a.attacks(s, t) == b.attacks(s, t),
{
}

/// Betweenness on a line: a square between `s` and a square between `s`
/// and `t` is between `s` and `t`; what is between is on the same line.
pub proof fn lemma_between_chain(s: int, t: int, v: int, u: int)
    requires
        between(s, t, v),
    ensures
        between(s, v, u) ==> between(s, t, u),
        between(v, t, u) ==> between(s, t, u),
        between(s, t, u) ==> u == v || between(s, v, u) || between(v, t, u),
        straight(s, v) == straight(s, t),
        diagonal(s, v) == diagonal(s, t),
        straight(v, t) == straight(s, t),
        diagonal(v, t) == diagonal(s, t),
        between(t, s, v),
        on_line(v, t, s),
        on_line(s, v, t),
        on_line(v, s, t),
{
    lemma_square(s);
    lemma_square(t);
    lemma_square(v);
    if 0 <= u < 64 {
        lemma_square(u);
    }
}

/// Where `p` stands between `s` and `k`, a square on the line through `p`
/// and `k` is `s`, `k`, between the two, or beyond one of them as seen from
/// `p`.
pub proof fn lemma_on_pin_line(s: int, k: int, p: int, d: int)
    requires
        between(s, k, p),
        on_line(p, d, k),
    ensures
        d == s || d == k || between(s, k, d) || between(p, d, k) || between(p, d, s),
{
    lemma_square(s);
    lemma_square(k);
    lemma_square(p);
    lemma_square(d);
}

/// The square of a side's king holds that king, and nothing else does.
pub proof fn lemma_king_sq(b: Board, color: Color)
    requires
        b.ready(),
        color != Color::NoColor,
    ensures
        b.holds(b.king_sq(color), Piece::King, color),
        forall|x: int| b.holds(x, Piece::King, color) ==> x == b.king_sq(color),
{
    if color == Color::White {
        assert(b.one_king(Color::White));
    } else {
        assert(b.one_king(Color::Black));
    }
}

/// The board after a move of kind normal or promotion: the source square
/// is empty, the destination holds the piece that moved or what it was
/// promoted to, and every other square is as before.
pub proof fn lemma_after_plain_move(b: Board, mv: u16)
    requires
        b.wf(),
        move_kind(mv) == MOVE_NORMAL || move_kind(mv) == MOVE_PROMO,
        move_src(mv) != move_dst(mv),
    ensures
        ({
            let a = make_spec(b, mv);
            let src = move_src(mv);
            let dst = move_dst(mv);
            &&& a.side == b.side.other()
            &&& a.piece.len() == 64
            &&& a.color.len() == 64
            &&& a.piece[src] == Piece::NoPiece
            &&& a.color[src] == Color::NoColor
            &&& a.color[dst] == b.side
            &&& a.piece[dst] == if move_kind(mv) == MOVE_PROMO {
                promo_piece(move_promo(mv))
            } else {
                b.piece[src]
            }
            &&& forall|u: int|
                0 <= u < 64 && u != src && u != dst ==> #[trigger] a.piece[u] == b.piece[u]
            &&& forall|u: int|
                0 <= u < 64 && u != src && u != dst ==> #[trigger] a.color[u] == b.color[u]
        }),
{
    lemma_move_word_of_fields(mv);
}

/// What a move of a piece other than the king, en passant captures apart,
/// has to it: the piece belongs to the side to move, the destination does
/// not, the way there is empty, a pinned piece stays on the line through
/// itself and its king, and in check the move captures the one piece
/// that gives check or ends between it and the king.
pub open spec fn plain_move_facts(b: Board, mv: u16) -> bool {
    let src = move_src(mv);
    let dst = move_dst(mv);
    let k = b.king_sq(b.side);
    &&& move_kind(mv) == MOVE_NORMAL || move_kind(mv) == MOVE_PROMO
    &&& src != dst
    &&& src != k
    &&& b.owned(src, b.side)
    &&& b.piece[src] != Piece::King
    &&& !b.owned(dst, b.side)
    &&& open_line(b, src, dst)
    &&& b.pinned(src) ==> on_line(src, dst, k)
    &&& b.in_check(b.side) ==> single_check(b) && (dst == the_checker(b) || between(
        the_checker(b),
        k,
        dst,
    ))
}

/// A generated move of a piece other than the king, en passant captures
/// apart, has the facts of `plain_move_facts` to it.
pub proof fn lemma_plain_move_facts(b: Board, mv: u16)
    requires
        b.ready(),
        generated(b, mv),
        move_kind(mv) == MOVE_NORMAL || move_kind(mv) == MOVE_PROMO,
        move_src(mv) != b.king_sq(b.side),
    ensures
        plain_move_facts(b, mv),
{
    let src = move_src(mv);
    let dst = move_dst(mv);
    let k = b.king_sq(b.side);
    lemma_move_word_of_fields(mv);
    lemma_king_sq(b, b.side);
    lemma_block_squares(b);
    lemma_square(src);
    lemma_square(dst);
    lemma_rank_up(src);
    let targets = if b.in_check(b.side) {
        block_squares(b)
    } else {
        ALL_SQUARES
    };
    assert(non_king_move(b, targets, mv));
    assert(b.owned(src, b.side));
    assert(b.piece[src] != Piece::King);
    assert((b.piece[dst] == Piece::NoPiece) <==> b.color[dst] == Color::NoColor);
    assert(!b.owned(dst, b.side));
    assert(src != dst);
    assert(open_line(b, src, dst)) by {
        if b.piece[src] == Piece::Pawn {
            assert forall|u: int| between(src, dst, u) implies !#[trigger] b.occupied(u) by {
                lemma_square(u);
            }
        } else if b.piece[src] == Piece::Knight {
            assert forall|u: int| between(src, dst, u) implies !#[trigger] b.occupied(u) by {}
        } else {
            lemma_slider_attacks(b, src, dst);
        }
    }
}

/// The board `a` is the board `b` with the piece on `src` gone to `dst`,
/// as itself or as another piece of its side.
pub open spec fn moved_to(b: Board, a: Board, src: int, dst: int) -> bool {
    &&& a.piece.len() == 64
    &&& a.color.len() == 64
    &&& a.piece[src] == Piece::NoPiece
    &&& a.color[src] == Color::NoColor
    &&& a.color[dst] == b.side
    &&& a.piece[dst] != Piece::NoPiece
    &&& forall|u: int| 0 <= u < 64 && u != src && u != dst ==> #[trigger] a.piece[u] == b.piece[u]
    &&& forall|u: int| 0 <= u < 64 && u != src && u != dst ==> #[trigger] a.color[u] == b.color[u]
}

/// After a pinned piece has moved along its pin line, the slider that
/// pinned it does not attack the king.
proof fn lemma_pinned_piece_safe(b: Board, a: Board, mv: u16, s: int)
    requires
        b.ready(),
        plain_move_facts(b, mv),
        moved_to(b, a, move_src(mv), move_dst(mv)),
        b.owned(s, b.side.other()),
        s != move_dst(mv),
        is_slider(b.piece[s]),
        aims(b, s, b.king_sq(b.side)),
        between(s, b.king_sq(b.side), move_src(mv)),
    ensures
        !open_line(a, s, b.king_sq(b.side)),
{
    let src = move_src(mv);
    let dst = move_dst(mv);
    let us = b.side;
    let k = b.king_sq(us);
    lemma_move_word_of_fields(mv);
    lemma_king_sq(b, us);
    if open_line(a, s, k) {
        assert forall|u: int| between(k, s, u) && #[trigger] b.occupied(u) implies u == src by {
            lemma_between_chain(s, k, src, u);
            if u != src {
                assert(between(s, k, u));
                assert(!a.occupied(u));
                if u == dst {
                    assert(a.occupied(dst));
                }
                assert(a.piece[u] == b.piece[u]);
            }
        }
        lemma_between_chain(s, k, src, src);
        assert(b.aims_at_king(s));
        assert(b.pins(s, src));
        assert(b.pinned(src));
        lemma_on_pin_line(s, k, src, dst);
        if between(s, k, dst) {
            assert(a.occupied(dst));
        }
        assert(b.occupied(k));
        assert(b.occupied(s)) by {
            assert((b.piece[s] == Piece::NoPiece) <==> b.color[s] == Color::NoColor);
        }
    }
}

/// After a move of a piece that did not stand between a slider and the
/// king, the slider attacks the king only if it did before and the move
/// does not end between the two.
proof fn lemma_unpinned_piece_safe(b: Board, a: Board, mv: u16, s: int)
    requires
        b.ready(),
        plain_move_facts(b, mv),
        moved_to(b, a, move_src(mv), move_dst(mv)),
        0 <= s < 64,
        !between(s, b.king_sq(b.side), move_src(mv)),
        open_line(a, s, b.king_sq(b.side)),
    ensures
        open_line(b, s, b.king_sq(b.side)),
        !between(s, b.king_sq(b.side), move_dst(mv)),
{
    let src = move_src(mv);
    let dst = move_dst(mv);
    let k = b.king_sq(b.side);
    lemma_move_word_of_fields(mv);
    assert(a.occupied(dst));
    assert forall|u: int| between(s, k, u) implies !#[trigger] b.occupied(u) by {
        assert(!a.occupied(u));
        assert(u != dst);
        assert(a.piece[u] == b.piece[u]);
    }
}

/// After a move with the facts of `plain_move_facts`, on a board where the
/// kings do not stand next to each other, no piece attacks the king of the
/// side that moved.
pub proof fn lemma_plain_move_safe(b: Board, a: Board, mv: u16)
    requires
        b.ready(),
        plain_move_facts(b, mv),
        moved_to(b, a, move_src(mv), move_dst(mv)),
        !king_reach(b.king_sq(b.side.other()), b.king_sq(b.side)),
    ensures
        !a.attacked_by(b.side.other(), b.king_sq(b.side)),
        a.holds(b.king_sq(b.side), Piece::King, b.side),
{
    let src = move_src(mv);
    let dst = move_dst(mv);
    let us = b.side;
    let them = us.other();
    let k = b.king_sq(us);
    lemma_move_word_of_fields(mv);
    lemma_king_sq(b, us);
    assert(k != dst && k != src);
    assert(a.piece[k] == b.piece[k] && a.color[k] == b.color[k]);
    if a.attacked_by(them, k) {
        let s = choose|s: int| #[trigger] a.owned(s, them) && a.attacks(s, k);
        assert(s != src && s != dst);
        assert(a.piece[s] == b.piece[s] && a.color[s] == b.color[s]);
        assert(b.owned(s, them));
        if !is_slider(b.piece[s]) {
            lemma_stepper_attacks(b, a, s, k);
            lemma_checker_blocks(b, mv, s);
        } else {
            lemma_slider_attacks(b, s, k);
            lemma_slider_attacks(a, s, k);
            assert(aims(b, s, k));
            if between(s, k, src) {
                lemma_pinned_piece_safe(b, a, mv, s);
            } else {
                lemma_unpinned_piece_safe(b, a, mv, s);
                lemma_checker_blocks(b, mv, s);
            }
        }
    }
}

/// A piece of the other side that attacks the king before a move with
/// the facts of `plain_move_facts` is the one piece that gives check, and
/// the move ends between it and the king, or captures it.
proof fn lemma_checker_blocks(b: Board, mv: u16, s: int)
    requires
        b.ready(),
        plain_move_facts(b, mv),
        !king_reach(b.king_sq(b.side.other()), b.king_sq(b.side)),
        b.owned(s, b.side.other()),
        b.attacks(s, b.king_sq(b.side)),
    ensures
        s == the_checker(b),
        move_dst(mv) == s || (is_slider(b.piece[s]) && between(
            s,
            b.king_sq(b.side),
            move_dst(mv),
        )),
{
    let us = b.side;
    let them = us.other();
    let k = b.king_sq(us);
    let dst = move_dst(mv);
    lemma_king_sq(b, us);
    lemma_king_sq(b, them);
    assert(b.in_check(us));
    if b.piece[s] == Piece::King {
        assert(b.holds(s, Piece::King, them));
        assert(s == b.king_sq(them));
    }
    assert(b.checker(s));
    let c = the_checker(b);
    let w = choose|w: int| #[trigger] b.checker(w) && forall|d: int| b.checker(d) ==> d == w;
    assert(b.checker(c));
    assert(c == w && s == w);
    if dst != s {
        assert(between(s, k, dst));
        lemma_square(s);
        lemma_square(k);
        lemma_square(dst);
    }
}

/// What a generated king move has to it: the king steps to a
/// neighbouring square that holds no piece of its side and is not attacked,
/// and, in check, not onto the line of a sliding check.
pub open spec fn king_move_facts(b: Board, mv: u16) -> bool {
    let src = move_src(mv);
    let dst = move_dst(mv);
    &&& move_kind(mv) == MOVE_NORMAL
    &&& src == b.king_sq(b.side)
    &&& king_reach(src, dst)
    &&& !b.owned(dst, b.side)
    &&& !b.attacked_by(b.side.other(), dst)
    &&& b.in_check(b.side) ==> !on_check_line(b, dst)
}

/// A generated normal move of the king has the facts of `king_move_facts`
/// to it.
pub proof fn lemma_king_move_facts(b: Board, mv: u16)
    requires
        b.ready(),
        generated(b, mv),
        move_kind(mv) == MOVE_NORMAL,
        move_src(mv) == b.king_sq(b.side),
    ensures
        king_move_facts(b, mv),
{
    lemma_move_word_of_fields(mv);
    lemma_king_sq(b, b.side);
    lemma_king_escape_squares(b);
    lemma_square(move_src(mv));
    lemma_square(move_dst(mv));
}

/// After a king move with the facts of `king_move_facts`, no piece attacks
/// the king on its new square.
pub proof fn lemma_king_move_safe(b: Board, a: Board, mv: u16)
    requires
        b.ready(),
        king_move_facts(b, mv),
        moved_to(b, a, move_src(mv), move_dst(mv)),
        a.piece[move_dst(mv)] == Piece::King,
    ensures
        !a.attacked_by(b.side.other(), move_dst(mv)),
        a.holds(move_dst(mv), Piece::King, b.side),
{
    let dst = move_dst(mv);
    let us = b.side;
    let them = us.other();
    let k = b.king_sq(us);
    lemma_move_word_of_fields(mv);
    lemma_king_sq(b, us);
    if a.attacked_by(them, dst) {
        let s = choose|s: int| #[trigger] a.owned(s, them) && a.attacks(s, dst);
        assert(s != k && s != dst);
        assert(a.piece[s] == b.piece[s] && a.color[s] == b.color[s]);
        assert(b.owned(s, them));
        if !is_slider(b.piece[s]) {
            lemma_stepper_attacks(b, a, s, dst);
        } else {
            lemma_slider_attacks(b, s, dst);
            lemma_slider_attacks(a, s, dst);
            lemma_slider_attacks(b, s, k);
            if between(s, dst, k) {
                // The slider looked through the king: it gave check, and
                // the king stays on its line.
                lemma_between_chain(s, dst, k, k);
                assert(open_line(b, s, k)) by {
                    assert forall|u: int| between(s, k, u) implies !#[trigger] b.occupied(u) by {
                        lemma_between_chain(s, dst, k, u);
                        assert(!a.occupied(u));
                        assert(a.piece[u] == b.piece[u]);
                    }
                }
                assert(b.attacks(s, k));
                assert(b.checker(s));
                assert(slider_checker(b, s) && on_line(k, s, dst) && dst != s);
                assert(b.in_check(us));
            } else {
                assert(open_line(b, s, dst)) by {
                    assert forall|u: int| between(s, dst, u) implies !#[trigger] b.occupied(u) by {
                        assert(!a.occupied(u));
                        assert(a.piece[u] == b.piece[u]);
                    }
                }
            }
            assert(b.attacks(s, dst));
        }
        assert(b.owned(s, them) && b.attacks(s, dst));
    }
}

/// The board `a` is the board `b` after the side to move has castled: king
/// and rook have left their squares and stand on their new ones.
pub open spec fn castled(b: Board, a: Board, short: bool) -> bool {
    let base = home(b.side);
    let king_to = base + if short {
        6int
    } else {
        2int
    };
    let rook_from = base + if short {
        7int
    } else {
        0int
    };
    let rook_to = base + if short {
        5int
    } else {
        3int
    };
    &&& a.piece.len() == 64
    &&& a.color.len() == 64
    &&& a.piece[base + 4] == Piece::NoPiece
    &&& a.color[base + 4] == Color::NoColor
    &&& a.piece[rook_from] == Piece::NoPiece
    &&& a.color[rook_from] == Color::NoColor
    &&& a.piece[king_to] == Piece::King
    &&& a.color[king_to] == b.side
    &&& a.piece[rook_to] == Piece::Rook
    &&& a.color[rook_to] == b.side
    &&& forall|u: int|
        0 <= u < 64 && u != base + 4 && u != rook_from && u != king_to && u != rook_to
            ==> #[trigger] a.piece[u] == b.piece[u]
    &&& forall|u: int|
        0 <= u < 64 && u != base + 4 && u != rook_from && u != king_to && u != rook_to
            ==> #[trigger] a.color[u] == b.color[u]
}

/// Between a square of the home rank's line and the king's destination,
/// with the king's or the rook's old square between them, lies the rook's
/// new square.
proof fn lemma_castle_line(base: int, short: bool, s: int, u: int)
    requires
        base == 0 || base == 56,
        0 <= s < 64,
        u == base + 4 || u == base + if short {
            7int
        } else {
            0int
        },
        between(
            s,
            base + if short {
                6int
            } else {
                2int
            },
            u,
        ),
    ensures
        between(
            s,
            base + if short {
                6int
            } else {
                2int
            },
            base + if short {
                5int
            } else {
                3int
            },
        ),
{
    lemma_square(s);
    lemma_square(u);
    lemma_square(base + 2);
    lemma_square(base + 3);
    lemma_square(base + 5);
    lemma_square(base + 6);
}

/// After castling that was open, no piece attacks the king on its new
/// square.
pub proof fn lemma_castle_safe(b: Board, a: Board, short: bool)
    requires
        b.ready(),
        b.king_sq(b.side) == home(b.side) + 4,
        castle_open(b, short),
        castled(b, a, short),
    ensures
        !a.attacked_by(
            b.side.other(),
            home(b.side) + if short {
                6int
            } else {
                2int
            },
        ),
{
    let us = b.side;
    let them = us.other();
    let base = home(us);
    let k = base + 4;
    let dst = base + if short {
        6int
    } else {
        2int
    };
    let rook_from = base + if short {
        7int
    } else {
        0int
    };
    let rook_to = base + if short {
        5int
    } else {
        3int
    };
    lemma_king_sq(b, us);
    if a.attacked_by(them, dst) {
        let s = choose|s: int| #[trigger] a.owned(s, them) && a.attacks(s, dst);
        assert(s != k && s != dst && s != rook_from && s != rook_to);
        assert(a.piece[s] == b.piece[s] && a.color[s] == b.color[s]);
        assert(b.owned(s, them));
        if !is_slider(b.piece[s]) {
            lemma_stepper_attacks(b, a, s, dst);
        } else {
            lemma_slider_attacks(b, s, dst);
            lemma_slider_attacks(a, s, dst);
            assert(a.occupied(rook_to));
            if between(s, dst, k) {
                lemma_castle_line(base, short, s, k);
            }
            if between(s, dst, rook_from) {
                lemma_castle_line(base, short, s, rook_from);
            }
            assert(open_line(b, s, dst)) by {
                assert forall|u: int| between(s, dst, u) implies !#[trigger] b.occupied(u) by {
                    assert(!a.occupied(u));
                    assert(a.piece[u] == b.piece[u]);
                }
            }
            assert(b.attacks(s, dst));
        }
        assert(b.owned(s, them) && b.attacks(s, dst));
    }
}

/// The board after castling is `castled`.
pub proof fn lemma_after_castle(b: Board, mv: u16, short: bool)
    requires
        b.wf(),
        b.side != Color::NoColor,
        move_kind(mv) == MOVE_CASTLE,
        move_src(mv) == home(b.side) + 4,
        move_dst(mv) == home(b.side) + if short {
            6int
        } else {
            2int
        },
        b.empty(move_dst(mv)),
    ensures
        castled(b, make_spec(b, mv), short),
{
    lemma_move_word_of_fields(mv);
    lemma_square(move_src(mv));
    lemma_square(move_dst(mv));
}

/// After a move that the generator gives for a legal board and that is no
/// en passant capture, the side that moved is not in check.
pub proof fn lemma_generated_plain_is_legal(b: Board, mv: u16)
    requires
        b.legal(),
        generated(b, mv),
        move_kind(mv) != MOVE_ENPASSANT,
    ensures
        !make_spec(b, mv).in_check(b.side),
        make_spec(b, mv).one_king(b.side),
{
    let a = make_spec(b, mv);
    let us = b.side;
    let them = us.other();
    let k = b.king_sq(us);
    let src = move_src(mv);
    let dst = move_dst(mv);
    lemma_move_word_of_fields(mv);
    lemma_king_sq(b, us);
    lemma_king_sq(b, them);
    crate::rules::lemma_generated_suits(b, mv);
    // The kings do not stand next to each other.
    assert(!king_reach(b.king_sq(them), k)) by {
        if king_reach(k, b.king_sq(them)) {
            assert(b.owned(k, us) && b.attacks(k, b.king_sq(them)));
        }
        lemma_square(k);
        lemma_square(b.king_sq(them));
    }
    let after = if src == k {
        dst
    } else {
        k
    };
    if move_kind(mv) == MOVE_CASTLE {
        let short = dst == home(us) + 6;
        lemma_rules_exclusive(b, ALL_SQUARES, ALL_SQUARES, mv);
        lemma_rules_exclusive(b, block_squares(b), block_squares(b), mv);
        lemma_rules_exclusive(b, king_escape_squares(b), block_squares(b), mv);
        assert(castle_move(b, mv));
        assert(castle_open(b, short));
        lemma_after_castle(b, mv, short);
        lemma_castle_safe(b, a, short);
        assert(a.holds(after, Piece::King, us));
        assert forall|x: int| a.holds(x, Piece::King, us) implies x == after by {
            if x != after {
                assert(a.piece[x] == b.piece[x] && a.color[x] == b.color[x]);
                assert(b.holds(x, Piece::King, us));
            }
        }
    } else {
        lemma_after_plain_move(b, mv);
        assert((b.piece[src] == Piece::NoPiece) <==> b.color[src] == Color::NoColor);
        assert(moved_to(b, a, src, dst));
        if src == k {
            assert(move_kind(mv) == MOVE_NORMAL) by {
                lemma_rules_exclusive(b, ALL_SQUARES, ALL_SQUARES, mv);
                lemma_rules_exclusive(b, block_squares(b), block_squares(b), mv);
                lemma_rules_exclusive(b, king_escape_squares(b), block_squares(b), mv);
            }
            lemma_king_move_facts(b, mv);
            lemma_king_move_safe(b, a, mv);
        } else {
            lemma_plain_move_facts(b, mv);
            lemma_plain_move_safe(b, a, mv);
        }
        assert(a.holds(after, Piece::King, us));
        assert forall|x: int| a.holds(x, Piece::King, us) implies x == after by {
            if x != after {
                if x == dst {
                    assert(src != k);
                    assert(b.piece[src] != Piece::King);
                } else {
                    assert(a.piece[x] == b.piece[x] && a.color[x] == b.color[x]);
                    assert(b.holds(x, Piece::King, us));
                }
            }
        }
    }
    assert(!a.attacked_by(them, after));
    assert(a.king_sq(us) == after);
}

/// The board `a` is the board `b` after the pawn on `src` has captured en
/// passant on `dst`: `src` and the square `victim` of the captured pawn are
/// empty, the pawn stands on `dst`.
pub open spec fn captured_en_passant(b: Board, a: Board, src: int, dst: int, victim: int) -> bool {
    &&& a.piece.len() == 64
    &&& a.color.len() == 64
    &&& a.piece[src] == Piece::NoPiece
    &&& a.color[src] == Color::NoColor
    &&& a.piece[victim] == Piece::NoPiece
    &&& a.color[victim] == Color::NoColor
    &&& a.piece[dst] == Piece::Pawn
    &&& a.color[dst] == b.side
    &&& forall|u: int|
        0 <= u < 64 && u != src && u != dst && u != victim ==> #[trigger] a.piece[u] == b.piece[u]
    &&& forall|u: int|
        0 <= u < 64 && u != src && u != dst && u != victim ==> #[trigger] a.color[u] == b.color[u]
}

/// What a generated en passant capture has to it. In check, one piece
/// alone gives check, and the capture takes it or lands between it and the
/// king.
pub open spec fn ep_facts(b: Board, mv: u16) -> bool {
    let src = move_src(mv);
    let dst = move_dst(mv);
    &&& move_kind(mv) == MOVE_ENPASSANT
    &&& dst == b.ep
    &&& 0 <= dst < 64
    &&& b.holds(src, Piece::Pawn, b.side)
    &&& pawn_reach(src, b.side, dst)
    &&& !ep_exposes_king(b, src)
    &&& pin_ok(b, src, dst)
    &&& b.in_check(b.side) ==> {
        &&& single_check(b)
        &&& the_checker(b) == behind(dst, b.side) || between(
            the_checker(b),
            b.king_sq(b.side),
            dst,
        )
    }
}

/// A piece with an occupied square between itself and `k` does not attack
/// `k`, whatever it is.
pub proof fn lemma_blocked(b: Board, s: int, blocker: int, k: int)
    requires
        b.wf(),
        0 <= s < 64,
        b.occupied(blocker),
        between(s, k, blocker),
    ensures
        !b.attacks(s, k),
{
    lemma_square(s);
    lemma_square(k);
    lemma_square(blocker);
    if is_slider(b.piece[s]) {
        lemma_slider_attacks(b, s, k);
    }
}

/// A generated en passant capture has the facts of `ep_facts` to it.
pub proof fn lemma_ep_facts(b: Board, mv: u16)
    requires
        b.playable(),
        generated(b, mv),
        move_kind(mv) == MOVE_ENPASSANT,
    ensures
        ep_facts(b, mv),
{
    let dst = move_dst(mv);
    let k = b.king_sq(b.side);
    let victim = behind(dst, b.side);
    lemma_move_word_of_fields(mv);
    lemma_king_sq(b, b.side);
    lemma_rules_exclusive(b, ALL_SQUARES, ALL_SQUARES, mv);
    lemma_rules_exclusive(b, block_squares(b), block_squares(b), mv);
    lemma_rules_exclusive(b, king_escape_squares(b), block_squares(b), mv);
    if b.in_check(b.side) {
        let c = the_checker(b);
        assert(single_check(b));
        assert(b.checker(c));
        lemma_block_squares(b);
        assert(b.empty(dst));
        assert(b.occupied(victim));
        if between(c, k, victim) {
            lemma_blocked(b, c, victim, k);
        }
    }
}

/// The squares of an en passant capture: the capturing pawn and the
/// destination are neighbours, and the captured pawn stands on neither.
proof fn lemma_ep_squares(us: Color, src: int, dst: int)
    requires
        pawn_reach(src, us, dst),
        0 <= behind(dst, us) < 64,
    ensures
        dist(src, dst) == 1,
        src != behind(dst, us),
        dst != behind(dst, us),
{
    lemma_square(src);
    lemma_square(dst);
    lemma_square(behind(dst, us));
    lemma_rank_up(dst);
}

/// After an en passant capture with the facts of `ep_facts`, no bishop,
/// rook or queen of the other side has an open line of its kind to the king:
/// the generator has looked for each.
proof fn lemma_ep_slider(b: Board, a: Board, mv: u16, s: int)
    requires
        b.ready(),
        ep_facts(b, mv),
        captured_en_passant(b, a, move_src(mv), move_dst(mv), behind(b.ep as int, b.side)),
        b.owned(s, b.side.other()),
        is_slider(b.piece[s]),
        aims(b, s, b.king_sq(b.side)),
    ensures
        !open_line(a, s, b.king_sq(b.side)),
{
    let src = move_src(mv);
    let dst = move_dst(mv);
    let us = b.side;
    let them = us.other();
    let k = b.king_sq(us);
    let victim = behind(b.ep as int, us);
    lemma_move_word_of_fields(mv);
    lemma_occ_after_ep(b, src);
    if open_line(a, s, k) {
        assert forall|u: int| between(k, s, u) implies !bb_has(occ_after_ep(b, src), u) by {
            lemma_between_chain(k, s, u, u);
            assert(between(s, k, u));
            assert(!a.occupied(u));
            if u != dst && u != src && u != victim {
                assert(a.piece[u] == b.piece[u]);
            }
        }
        lemma_clear_between(k, s, occ_after_ep(b, src));
        lemma_square(s);
        lemma_square(k);
        if straight(s, k) {
            assert(straight(k, s));
            assert(rook_reach(k, occ_after_ep(b, src), s));
            assert(b.piece[s] == Piece::Rook || b.piece[s] == Piece::Queen);
            assert(b.holds(s, Piece::Rook, them) || b.holds(s, Piece::Queen, them));
            assert(ep_opens_straight(b, src));
        } else {
            assert(diagonal(k, s));
            assert(bishop_reach(k, occ_after_ep(b, src), s));
            assert(b.piece[s] == Piece::Bishop || b.piece[s] == Piece::Queen);
            assert(b.holds(s, Piece::Bishop, them) || b.holds(s, Piece::Queen, them));
            assert(ep_opens_diagonal(b, src));
        }
    }
}

/// After an en passant capture with the facts of `ep_facts`, no piece
/// attacks the king of the side that moved.
pub proof fn lemma_ep_capture_safe(b: Board, a: Board, mv: u16)
    requires
        b.ready(),
        ep_facts(b, mv),
        b.empty(move_dst(mv)),
        b.holds(behind(b.ep as int, b.side), Piece::Pawn, b.side.other()),
        captured_en_passant(b, a, move_src(mv), move_dst(mv), behind(b.ep as int, b.side)),
        !king_reach(b.king_sq(b.side.other()), b.king_sq(b.side)),
    ensures
        !a.attacked_by(b.side.other(), b.king_sq(b.side)),
        a.holds(b.king_sq(b.side), Piece::King, b.side),
{
    let src = move_src(mv);
    let dst = move_dst(mv);
    let us = b.side;
    let them = us.other();
    let k = b.king_sq(us);
    let victim = behind(b.ep as int, us);
    lemma_move_word_of_fields(mv);
    lemma_king_sq(b, us);
    assert(k != src && k != dst && k != victim);
    assert(a.piece[k] == b.piece[k] && a.color[k] == b.color[k]);
    if a.attacked_by(them, k) {
        let s = choose|s: int| #[trigger] a.owned(s, them) && a.attacks(s, k);
        assert(s != src && s != dst && s != victim);
        assert(a.piece[s] == b.piece[s] && a.color[s] == b.color[s]);
        assert(b.owned(s, them));
        if !is_slider(b.piece[s]) {
            lemma_stepper_attacks(b, a, s, k);
            lemma_ep_checker(b, mv, s);
        } else {
            lemma_slider_attacks(a, s, k);
            assert(aims(b, s, k));
            lemma_ep_slider(b, a, mv, s);
        }
    }
}

/// A piece that is no slider and attacks the king before an en passant
/// capture with the facts of `ep_facts` is the captured pawn.
proof fn lemma_ep_checker(b: Board, mv: u16, s: int)
    requires
        b.ready(),
        ep_facts(b, mv),
        !king_reach(b.king_sq(b.side.other()), b.king_sq(b.side)),
        b.owned(s, b.side.other()),
        !is_slider(b.piece[s]),
        b.attacks(s, b.king_sq(b.side)),
    ensures
        s == behind(b.ep as int, b.side),
{
    let us = b.side;
    let them = us.other();
    let k = b.king_sq(us);
    let dst = move_dst(mv);
    lemma_king_sq(b, us);
    lemma_king_sq(b, them);
    assert(b.in_check(us));
    if b.piece[s] == Piece::King {
        assert(b.holds(s, Piece::King, them));
        assert(s == b.king_sq(them));
    }
    assert(b.checker(s));
    let c = the_checker(b);
    let w = choose|w: int| #[trigger] b.checker(w) && forall|d: int| b.checker(d) ==> d == w;
    assert(b.checker(c));
    assert(c == w && s == w);
    if s != behind(b.ep as int, us) {
        assert(between(s, k, dst));
        lemma_square(s);
        lemma_square(k);
        lemma_square(dst);
    }
}

/// The board after an en passant capture is `captured_en_passant`.
pub proof fn lemma_after_ep(b: Board, mv: u16)
    requires
        b.wf(),
        b.side != Color::NoColor,
        move_kind(mv) == MOVE_ENPASSANT,
        b.empty(move_dst(mv)),
        0 <= behind(move_dst(mv), b.side) < 64,
        move_src(mv) != move_dst(mv),
        move_src(mv) != behind(move_dst(mv), b.side),
    ensures
        captured_en_passant(
            b,
            make_spec(b, mv),
            move_src(mv),
            move_dst(mv),
            behind(move_dst(mv), b.side),
        ),
{
    lemma_move_word_of_fields(mv);
}

/// After an en passant capture that the generator gives for a legal
/// board, the side that moved is not in check.
pub proof fn lemma_generated_ep_is_legal(b: Board, mv: u16)
    requires
        b.legal(),
        generated(b, mv),
        move_kind(mv) == MOVE_ENPASSANT,
    ensures
        !make_spec(b, mv).in_check(b.side),
        make_spec(b, mv).one_king(b.side),
{
    let a = make_spec(b, mv);
    let us = b.side;
    let them = us.other();
    let k = b.king_sq(us);
    let src = move_src(mv);
    let dst = move_dst(mv);
    lemma_move_word_of_fields(mv);
    lemma_king_sq(b, us);
    lemma_king_sq(b, them);
    lemma_ep_facts(b, mv);
    assert(!king_reach(b.king_sq(them), k)) by {
        if king_reach(k, b.king_sq(them)) {
            assert(b.owned(k, us) && b.attacks(k, b.king_sq(them)));
        }
        lemma_square(k);
        lemma_square(b.king_sq(them));
    }
    lemma_ep_squares(us, src, dst);
    lemma_after_ep(b, mv);
    lemma_ep_capture_safe(b, a, mv);
    assert(a.holds(k, Piece::King, us));
    assert forall|x: int| a.holds(x, Piece::King, us) implies x == k by {
        if x != k {
            assert(a.piece[x] == b.piece[x] && a.color[x] == b.color[x]);
            assert(b.holds(x, Piece::King, us));
        }
    }
    assert(a.king_sq(us) == k);
}

/// After a move that the generator gives for a legal board, the side that
/// moved is not in check.
pub proof fn lemma_generated_move_is_legal(b: Board, mv: u16)
    requires
        b.legal(),
        generated(b, mv),
    ensures
        !make_spec(b, mv).in_check(b.side),
        make_spec(b, mv).one_king(b.side),
{
    if move_kind(mv) == MOVE_ENPASSANT {
        lemma_generated_ep_is_legal(b, mv);
    } else {
        lemma_generated_plain_is_legal(b, mv);
    }
}

/// A move that the rules of movement allow does not capture a king: the
/// side that is not to move is not in check, and a capture goes to an
/// attacked square.
pub proof fn lemma_no_king_capture(b: Board, mv: u16)
    requires
        b.legal(),
        free_move(b, mv),
    ensures
        move_dst(mv) != b.king_sq(b.side.other()),
        move_dst(mv) != b.king_sq(b.side),
{
    let us = b.side;
    let them = us.other();
    let src = move_src(mv);
    let dst = move_dst(mv);
    lemma_move_word_of_fields(mv);
    lemma_king_sq(b, us);
    lemma_king_sq(b, them);
    crate::rules::lemma_free_suits(b, mv);
    if dst == b.king_sq(them) {
        assert(b.occupied(dst));
        assert(b.owned(src, us));
        assert(b.attacks(src, dst));
        assert(b.owned(src, us) && b.attacks(src, dst));
    }
}

/// A bit that is left after two masks was in the word and in both masks;
/// and the bits that the masks of the six home squares lack.
proof fn lemma_bit_castle_rights()
    by (bit_vector)
    ensures
        forall|c: u8, x: u8, y: u8|
            #![trigger (c & x) & y]
            (((c & x) & y) & 1 != 0 ==> c & 1 != 0 && x & 1 != 0 && y & 1 != 0) && (((c & x) & y)
                & 2 != 0 ==> c & 2 != 0 && x & 2 != 0 && y & 2 != 0) && (((c & x) & y) & 4 != 0
                ==> c & 4 != 0 && x & 4 != 0 && y & 4 != 0) && (((c & x) & y) & 8 != 0 ==> c & 8
                != 0 && x & 8 != 0 && y & 8 != 0),
        13u8 & 2 == 0,
        12u8 & 1 == 0,
        12u8 & 2 == 0,
        14u8 & 1 == 0,
        7u8 & 8 == 0,
        3u8 & 4 == 0,
        3u8 & 8 == 0,
        11u8 & 4 == 0,
{
}

/// A castle right that is left after a move was there before, and the move
/// has touched neither the king's nor the rook's home square.
pub proof fn lemma_rights_left(castle: u8, src: int, dst: int)
    requires
        0 <= src < 64,
        0 <= dst < 64,
    ensures
        ({
            let left = castle & CASTLE_RIGHTS[src] & CASTLE_RIGHTS[dst];
            &&& left & WHITE_OO != 0 ==> castle & WHITE_OO != 0 && src != 4 && src != 7 && dst
                != 4 && dst != 7
            &&& left & WHITE_OOO != 0 ==> castle & WHITE_OOO != 0 && src != 4 && src != 0 && dst
                != 4 && dst != 0
            &&& left & BLACK_OO != 0 ==> castle & BLACK_OO != 0 && src != 60 && src != 63 && dst
                != 60 && dst != 63
            &&& left & BLACK_OOO != 0 ==> castle & BLACK_OOO != 0 && src != 60 && src != 56
                && dst != 60 && dst != 56
        }),
{
    lemma_bit_castle_rights();
    let x = CASTLE_RIGHTS[src];
    let y = CASTLE_RIGHTS[dst];
    let left = (castle & x) & y;
    assert(CASTLE_RIGHTS[0] == 13 && CASTLE_RIGHTS[4] == 12 && CASTLE_RIGHTS[7] == 14);
    assert(CASTLE_RIGHTS[56] == 7 && CASTLE_RIGHTS[60] == 3 && CASTLE_RIGHTS[63] == 11);
}

/// The squares that the move `mv` changes on the board `b`: source and
/// destination, the captured pawn's square of an en passant capture, the
/// rook's two squares of castling.
pub open spec fn touched(b: Board, mv: u16, u: int) -> bool {
    let src = move_src(mv);
    let dst = move_dst(mv);
    ||| u == src
    ||| u == dst
    ||| (move_kind(mv) == MOVE_ENPASSANT && u == behind(dst, b.side))
    ||| (move_kind(mv) == MOVE_CASTLE && (u == castle_rook_src(src, dst, b.side) || u
        == castle_rook_dst(src, dst, b.side)))
}

/// A move that suits changes only the squares it touches, leaves its source
/// empty and puts a piece of the side that moved on its destination: the
/// piece that moved, unless the move promotes.
pub proof fn lemma_after_move(b: Board, mv: u16)
    requires
        b.wf(),
        move_suits(b, mv),
    ensures
        ({
            let a = make_spec(b, mv);
            let src = move_src(mv);
            let dst = move_dst(mv);
            &&& a.wf()
            &&& a.side == b.side.other()
            &&& forall|u: int|
                0 <= u < 64 && !touched(b, mv, u) ==> #[trigger] a.piece[u] == b.piece[u]
            &&& forall|u: int|
                0 <= u < 64 && !touched(b, mv, u) ==> #[trigger] a.color[u] == b.color[u]
            &&& a.empty(src)
            &&& a.color[dst] == b.side
            &&& a.piece[dst] == if move_kind(mv) == MOVE_PROMO {
                promo_piece(move_promo(mv))
            } else {
                b.piece[src]
            }
            &&& move_kind(mv) == MOVE_ENPASSANT ==> a.empty(behind(dst, b.side))
            &&& move_kind(mv) == MOVE_CASTLE ==> a.empty(castle_rook_src(src, dst, b.side))
                && a.holds(castle_rook_dst(src, dst, b.side), Piece::Rook, b.side)
        }),
{
    lemma_move_word_of_fields(mv);
    lemma_make_suits(b, mv);
    lemma_square(move_src(mv));
    lemma_square(move_dst(mv));
    assert((b.piece[move_src(mv)] == Piece::NoPiece) <==> b.color[move_src(mv)]
        == Color::NoColor);
}

/// After a move that the rules of movement allow on a legal board each
/// side still has its one king: that of the side that moved on the
/// destination if the king moved, else where it was.
pub proof fn lemma_kings_stay(b: Board, mv: u16)
    requires
        b.legal(),
        free_move(b, mv),
    ensures
        make_spec(b, mv).one_king(Color::White),
        make_spec(b, mv).one_king(Color::Black),
        make_spec(b, mv).king_sq(b.side.other()) == b.king_sq(b.side.other()),
        make_spec(b, mv).king_sq(b.side) == if move_src(mv) == b.king_sq(b.side) {
            move_dst(mv)
        } else {
            b.king_sq(b.side)
        },
{
    let a = make_spec(b, mv);
    let us = b.side;
    let them = us.other();
    let src = move_src(mv);
    let dst = move_dst(mv);
    let k = b.king_sq(us);
    let kt = b.king_sq(them);
    lemma_move_word_of_fields(mv);
    lemma_king_sq(b, us);
    lemma_king_sq(b, them);
    crate::rules::lemma_free_suits(b, mv);
    lemma_after_move(b, mv);
    lemma_no_king_capture(b, mv);
    let after = if src == k {
        dst
    } else {
        k
    };
    assert(b.color[src] == us);
    assert(b.piece[src] == Piece::King ==> b.holds(src, Piece::King, us));
    assert(b.piece[src] == Piece::King ==> src == k);
    assert(!touched(b, mv, kt)) by {
        assert(b.holds(kt, Piece::King, them));
    }
    assert(a.holds(kt, Piece::King, them));
    assert(a.holds(after, Piece::King, us)) by {
        if src != k {
            assert(b.holds(k, Piece::King, us));
            assert(!touched(b, mv, k));
        }
    }
    assert forall|x: int, color: Color|
        color != Color::NoColor && a.holds(x, Piece::King, color) implies x == (if color == us {
        after
    } else {
        kt
    }) by {
        if touched(b, mv, x) {
            if x == dst && move_kind(mv) == MOVE_PROMO {
                assert(a.piece[x] != Piece::King);
            }
        } else {
            assert(a.piece[x] == b.piece[x] && a.color[x] == b.color[x]);
            assert(b.holds(x, Piece::King, color));
        }
    }
    assert(a.one_king(us));
    assert(a.one_king(them));
}

/// After a generated move on a legal board, the board is playable: each
/// side has its king, every castle right that is
/// left has king and rook at home, and the en passant square, if the move
/// sets one, is empty with the pawn that passed it behind it.
pub proof fn lemma_generated_move_keeps_playable(b: Board, mv: u16)
    requires
        b.legal(),
        generated(b, mv),
    ensures
        make_spec(b, mv).playable(),
{
    let a = make_spec(b, mv);
    let us = b.side;
    let src = move_src(mv);
    let dst = move_dst(mv);
    lemma_move_word_of_fields(mv);
    crate::rules::lemma_generated_is_free(b, mv);
    crate::rules::lemma_generated_suits(b, mv);
    lemma_after_move(b, mv);
    lemma_kings_stay(b, mv);
    lemma_king_sq(b, us);
    lemma_rights_left(b.castle, src, dst);
    lemma_square(src);
    lemma_square(dst);
    lemma_rank_up(src);
    lemma_rank_up(dst);
    assert(a.castle_consistent()) by {
        // Castling touches the home rank of the side that castles, and
        // takes both rights of that side away.
        if move_kind(mv) == MOVE_CASTLE {
            assert(src == home(us) + 4);
        }
        if a.castle & WHITE_OO != 0 {
            assert(!touched(b, mv, 4) && !touched(b, mv, 7));
        }
        if a.castle & WHITE_OOO != 0 {
            assert(!touched(b, mv, 4) && !touched(b, mv, 0));
        }
        if a.castle & BLACK_OO != 0 {
            assert(!touched(b, mv, 60) && !touched(b, mv, 63));
        }
        if a.castle & BLACK_OOO != 0 {
            assert(!touched(b, mv, 60) && !touched(b, mv, 56));
        }
    }
    assert(a.ep_consistent()) by {
        if a.ep != crate::square::NO_SQUARE {
            lemma_rules_exclusive(b, ALL_SQUARES, ALL_SQUARES, mv);
            lemma_rules_exclusive(b, block_squares(b), block_squares(b), mv);
            lemma_rules_exclusive(b, king_escape_squares(b), block_squares(b), mv);
            let passed = behind(dst, us);
            assert(b.piece[src] == Piece::Pawn);
            assert(b.empty(passed));
            assert(!touched(b, mv, passed));
            assert(a.piece[passed] == b.piece[passed]);
        }
    }
}

/// A legal board stays legal under every generated move.
pub proof fn lemma_generated_move_keeps_legal(b: Board, mv: u16)
    requires
        b.legal(),
        generated(b, mv),
    ensures
        make_spec(b, mv).legal(),
{
    lemma_generated_move_keeps_playable(b, mv);
    lemma_generated_move_is_legal(b, mv);
}

} // verus!
