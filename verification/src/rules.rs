//! Which moves the generator gives for a board, as predicates on move
//! words.

use vstd::prelude::*;
use crate::bitboard::pawn_advance;
use crate::bits::{bb_has, bb_of, lemma_bb_of};
use crate::geometry::{
    knight_reach, king_reach, pawn_reach, rook_reach, bishop_reach, queen_reach, between, on_line,
};
use crate::moves::{
    move_src, move_dst, move_kind, move_promo, MOVE_NORMAL, MOVE_PROMO, MOVE_ENPASSANT,
    MOVE_CASTLE,
};
use crate::position::{
    Board, behind, move_suits, has_room, make_spec, unmake_spec, undo_of, lemma_unmake_make,
};
use crate::square::{lemma_rank_up, lemma_square, rank, file, NO_SQUARE};
use crate::things::{Piece, Color, WHITE_OO, WHITE_OOO, BLACK_OO, BLACK_OOO};

verus! {

/// The bitboard of all 64 squares.
pub const ALL_SQUARES: u64 = 0xffff_ffff_ffff_ffff;

/// A move of kind normal, with the promotion bits zero.
pub open spec fn is_normal(mv: u16) -> bool {
    move_kind(mv) == MOVE_NORMAL && move_promo(mv) == 0
}

/// The piece on `src` may go to `dst` as far as pins go: it is not pinned,
/// or it stays on the line through itself and its king.
pub open spec fn pin_ok(b: Board, src: int, dst: int) -> bool {
    !b.pinned(src) || on_line(src, dst, b.king_sq(b.side))
}

/// A piece of kind `piece`, a knight, bishop, rook or queen, on `src`
/// attacks `dst`.
pub open spec fn piece_reach(b: Board, piece: Piece, src: int, dst: int) -> bool {
    match piece {
        Piece::Knight => knight_reach(src, dst),
        Piece::Bishop => bishop_reach(src, b.occ(), dst),
        Piece::Rook => rook_reach(src, b.occ(), dst),
        Piece::Queen => queen_reach(src, b.occ(), dst),
        _ => false,
    }
}

/// A move of a knight, bishop, rook or queen of the side to move: to a
/// target square that it attacks and that holds no piece of its own side;
/// a knight must not be pinned, the others must stay on the pin line.
pub open spec fn piece_move(b: Board, piece: Piece, targets: u64, mv: u16) -> bool {
    let src = move_src(mv);
    let dst = move_dst(mv);
    &&& is_normal(mv)
    &&& b.holds(src, piece, b.side)
    &&& piece_reach(b, piece, src, dst)
    &&& bb_has(targets, dst)
    &&& !b.owned(dst, b.side)
    &&& if piece == Piece::Knight {
        !b.pinned(src)
    } else {
        pin_ok(b, src, dst)
    }
}

/// A move of the king of the side to move: to a neighbouring target square
/// that holds no piece of its own side and that the other side does not
/// attack.
pub open spec fn king_move(b: Board, targets: u64, mv: u16) -> bool {
    let src = move_src(mv);
    let dst = move_dst(mv);
    &&& is_normal(mv)
    &&& src == b.king_sq(b.side)
    &&& king_reach(src, dst)
    &&& bb_has(targets, dst)
    &&& !b.owned(dst, b.side)
    &&& !b.attacked_by(b.side.other(), dst)
}

/// The rank on which a pawn of `us` promotes.
pub open spec fn promotion_rank(us: Color) -> int {
    if us == Color::White {
        7
    } else {
        0
    }
}

/// The word of a pawn move says what the destination asks for: a
/// promotion, to any of the four pieces, on the promotion rank, a normal
/// move elsewhere.
pub open spec fn pawn_word_ok(b: Board, mv: u16) -> bool {
    if rank(move_dst(mv)) == promotion_rank(b.side) {
        move_kind(mv) == MOVE_PROMO
    } else {
        is_normal(mv)
    }
}

/// A pawn of `us` on `src` may advance to `dst`: one rank forward onto an
/// empty square, or from its home rank two ranks forward over an empty
/// square onto an empty square.
pub open spec fn push_reach(b: Board, src: int, dst: int) -> bool {
    &&& 0 <= src < 64
    &&& b.empty(dst)
    &&& if b.side == Color::White {
        dst == src + 8 || (rank(src) == 1 && dst == src + 16 && b.empty(src + 8))
    } else {
        dst == src - 8 || (rank(src) == 6 && dst == src - 16 && b.empty(src - 8))
    }
}

/// A pawn advance of the side to move onto a target square.
pub open spec fn pawn_push(b: Board, targets: u64, mv: u16) -> bool {
    let src = move_src(mv);
    let dst = move_dst(mv);
    &&& b.holds(src, Piece::Pawn, b.side)
    &&& push_reach(b, src, dst)
    &&& bb_has(targets, dst)
    &&& pin_ok(b, src, dst)
    &&& pawn_word_ok(b, mv)
}

/// A pawn capture of the side to move on a target square, en passant
/// captures apart.
pub open spec fn pawn_capture(b: Board, targets: u64, mv: u16) -> bool {
    let src = move_src(mv);
    let dst = move_dst(mv);
    &&& b.holds(src, Piece::Pawn, b.side)
    &&& pawn_reach(src, b.side, dst)
    &&& b.owned(dst, b.side.other())
    &&& bb_has(targets, dst)
    &&& pin_ok(b, src, dst)
    &&& pawn_word_ok(b, mv)
}

/// The occupied squares after the pawn on `src` has captured en passant:
/// the en passant square is taken, `src` and the captured pawn's square are
/// free.
pub open spec fn occ_after_ep(b: Board, src: int) -> u64 {
    bb_of(occupied_after_ep(b, src))
}

/// Whether a square is occupied after the pawn on `src` has captured en
/// passant.
pub open spec fn occupied_after_ep(b: Board, src: int) -> spec_fn(int) -> bool {
    |s: int| (s == b.ep || b.occupied(s)) && s != src && s != behind(b.ep as int, b.side)
}

/// After the pawn on `src` has captured en passant, a rook or queen of the
/// other side attacks the king along a rank or file.
pub open spec fn ep_opens_straight(b: Board, src: int) -> bool {
    exists|q: int|
        (#[trigger] b.holds(q, Piece::Rook, b.side.other()) || b.holds(
            q,
            Piece::Queen,
            b.side.other(),
        )) && rook_reach(b.king_sq(b.side), occ_after_ep(b, src), q)
}

/// After the pawn on `src` has captured en passant, a bishop or queen of
/// the other side attacks the king along a diagonal.
pub open spec fn ep_opens_diagonal(b: Board, src: int) -> bool {
    exists|q: int|
        (#[trigger] b.holds(q, Piece::Bishop, b.side.other()) || b.holds(
            q,
            Piece::Queen,
            b.side.other(),
        )) && bishop_reach(b.king_sq(b.side), occ_after_ep(b, src), q)
}

/// After the pawn on `src` has captured en passant, with both pawns gone
/// from their squares, a rook, bishop or queen of the other side attacks
/// the king.
pub open spec fn ep_exposes_king(b: Board, src: int) -> bool {
    ep_opens_straight(b, src) || ep_opens_diagonal(b, src)
}

/// An en passant capture of the side to move: by a pawn that attacks the en
/// passant square, where the en passant square or the square of the
/// captured pawn is a target square, unless the capture opens a line to the
/// king or the pawn is pinned and its line to the destination misses the
/// king.
pub open spec fn ep_capture(b: Board, targets: u64, mv: u16) -> bool {
    let src = move_src(mv);
    let dst = move_dst(mv);
    &&& move_kind(mv) == MOVE_ENPASSANT
    &&& move_promo(mv) == 0
    &&& b.ep != NO_SQUARE
    &&& dst == b.ep
    &&& (bb_has(targets, dst) || bb_has(targets, behind(dst, b.side)))
    &&& b.holds(src, Piece::Pawn, b.side)
    &&& pawn_reach(src, b.side, dst)
    &&& !ep_exposes_king(b, src)
    &&& pin_ok(b, src, dst)
}

/// Castling of `us` on the king's side (`short`) or the queen's side is
/// open: the right is there, the squares between king and rook are empty,
/// and the king neither stands on, passes nor reaches an attacked square.
pub open spec fn castle_open(b: Board, short: bool) -> bool {
    let us = b.side;
    let them = us.other();
    let base: int = if us == Color::White {
        0
    } else {
        56
    };
    let right = if us == Color::White {
        if short {
            WHITE_OO
        } else {
            WHITE_OOO
        }
    } else {
        if short {
            BLACK_OO
        } else {
            BLACK_OOO
        }
    };
    &&& b.castle & right != 0
    &&& !b.attacked_by(them, b.king_sq(us))
    &&& if short {
        &&& b.empty(base + 5)
        &&& b.empty(base + 6)
        &&& !b.attacked_by(them, base + 5)
        &&& !b.attacked_by(them, base + 6)
    } else {
        &&& b.empty(base + 1)
        &&& b.empty(base + 2)
        &&& b.empty(base + 3)
        &&& !b.attacked_by(them, base + 2)
        &&& !b.attacked_by(them, base + 3)
    }
}

/// A castling move of the side to move: the king goes from its square to
/// the g-file or c-file of its home rank.
pub open spec fn castle_move(b: Board, mv: u16) -> bool {
    let src = move_src(mv);
    let dst = move_dst(mv);
    let base: int = if b.side == Color::White {
        0
    } else {
        56
    };
    &&& move_kind(mv) == MOVE_CASTLE
    &&& move_promo(mv) == 0
    &&& src == b.king_sq(b.side)
    &&& {
        ||| (dst == base + 6 && castle_open(b, true))
        ||| (dst == base + 2 && castle_open(b, false))
    }
}

/// A move of a pawn, knight, bishop, rook or queen onto a target square.
pub open spec fn non_king_move(b: Board, targets: u64, mv: u16) -> bool {
    ||| pawn_push(b, targets, mv)
    ||| pawn_capture(b, targets, mv)
    ||| ep_capture(b, targets, mv)
    ||| piece_move(b, Piece::Knight, targets, mv)
    ||| piece_move(b, Piece::Bishop, targets, mv)
    ||| piece_move(b, Piece::Rook, targets, mv)
    ||| piece_move(b, Piece::Queen, targets, mv)
}

/// What the generator gives when the side to move is not in check: every
/// piece's moves anywhere on the board, and castling.
pub open spec fn ordinary_move(b: Board, mv: u16) -> bool {
    ||| non_king_move(b, ALL_SQUARES, mv)
    ||| king_move(b, ALL_SQUARES, mv)
    ||| castle_move(b, mv)
}

/// The piece on `c` gives check as a bishop, rook or queen.
pub open spec fn slider_checker(b: Board, c: int) -> bool {
    &&& b.checker(c)
    &&& (b.piece[c] == Piece::Bishop || b.piece[c] == Piece::Rook || b.piece[c] == Piece::Queen)
}

/// Square `t` lies on the line of a sliding check, the checking piece's
/// own square apart.
pub open spec fn on_check_line(b: Board, t: int) -> bool {
    exists|c: int| #[trigger]
        slider_checker(b, c) && on_line(b.king_sq(b.side), c, t) && t != c
}

/// Where the king may go when in check: off the attacked squares and off
/// the lines of sliding checks.
pub open spec fn king_escape_squares(b: Board) -> u64 {
    bb_of(|t: int| !b.attacked_by(b.side.other(), t) && !on_check_line(b, t))
}

/// Exactly one piece gives check.
pub open spec fn single_check(b: Board) -> bool {
    exists|c: int| #[trigger] b.checker(c) && forall|d: int| b.checker(d) ==> d == c
}

/// The piece that gives check, where there is one.
pub open spec fn the_checker(b: Board) -> int {
    choose|c: int| b.checker(c)
}

/// Where a piece other than the king may go to answer a single check: onto
/// the checking piece or between it and the king.
pub open spec fn block_squares(b: Board) -> u64 {
    bb_of(|t: int| t == the_checker(b) || between(the_checker(b), b.king_sq(b.side), t))
}

/// What the generator gives when the side to move is in check: king moves
/// to escape squares, and against a single check the moves of other pieces
/// that capture the checking piece, also en passant, or step between it and
/// the king.
pub open spec fn evasion_move(b: Board, mv: u16) -> bool {
    ||| king_move(b, king_escape_squares(b), mv)
    ||| (single_check(b) && non_king_move(b, block_squares(b), mv))
}

/// The move `mv` is one that the generator gives for the board `b`.
pub open spec fn generated(b: Board, mv: u16) -> bool {
    if b.in_check(b.side) {
        evasion_move(b, mv)
    } else {
        ordinary_move(b, mv)
    }
}

/// A castling move of `color` on the king's side (`short`) or the queen's
/// side, where `color` is to move.
pub open spec fn castle_side(b: Board, color: Color, short: bool, mv: u16) -> bool {
    let base: int = if color == Color::White {
        0
    } else {
        56
    };
    &&& move_kind(mv) == MOVE_CASTLE
    &&& move_promo(mv) == 0
    &&& move_src(mv) == b.king_sq(b.side)
    &&& b.side == color
    &&& move_dst(mv) == base + if short {
        6int
    } else {
        2int
    }
    &&& castle_open(b, short)
}

/// The place of a move in the order in which the generator gives moves:
/// pawn advances, pawn captures, en passant captures, then the moves of
/// knights, bishops, rooks and queens, king moves, and castling last. In
/// check the king moves come first.
pub open spec fn move_order(b: Board, mv: u16) -> int {
    let src = move_src(mv);
    let dst = move_dst(mv);
    match b.piece[src] {
        Piece::Pawn => if move_kind(mv) == MOVE_ENPASSANT {
            2
        } else if file(src) == file(dst) {
            0
        } else {
            1
        },
        Piece::Knight => 3,
        Piece::Bishop => 4,
        Piece::Rook => 5,
        Piece::Queen => 6,
        Piece::King => if move_kind(mv) == MOVE_CASTLE {
            8
        } else if b.in_check(b.side) {
            -1
        } else {
            7
        },
        Piece::NoPiece => 9,
    }
}

/// The place of each sort of move in the order of the generator.
pub proof fn lemma_move_order(b: Board, targets: u64, mv: u16)
    requires
        b.ready(),
    ensures
        pawn_push(b, targets, mv) ==> move_order(b, mv) == 0,
        pawn_capture(b, targets, mv) ==> move_order(b, mv) == 1,
        ep_capture(b, targets, mv) ==> move_order(b, mv) == 2,
        piece_move(b, Piece::Knight, targets, mv) ==> move_order(b, mv) == 3,
        piece_move(b, Piece::Bishop, targets, mv) ==> move_order(b, mv) == 4,
        piece_move(b, Piece::Rook, targets, mv) ==> move_order(b, mv) == 5,
        piece_move(b, Piece::Queen, targets, mv) ==> move_order(b, mv) == 6,
        king_move(b, targets, mv) ==> move_order(b, mv) == if b.in_check(b.side) {
            -1int
        } else {
            7int
        },
        castle_move(b, mv) ==> move_order(b, mv) == 8,
{
    let k = b.king_sq(b.side);
    assert(b.holds(k, Piece::King, b.side)) by {
        if b.side == Color::White {
            assert(b.one_king(Color::White));
        } else {
            assert(b.one_king(Color::Black));
        }
    }
    let src = move_src(mv);
    let dst = move_dst(mv);
    lemma_rank_up(src);
    lemma_square(src);
    if 0 <= dst < 64 {
        lemma_square(dst);
    }
}

/// A move as the rules of movement allow it, whatever it does to the own
/// king: a piece of the side to move goes to a square that it attacks and
/// that holds no piece of its side, a pawn advances or captures, also en
/// passant, with a promotion where it reaches the last rank, or the king
/// castles where castling is open.
pub open spec fn free_move(b: Board, mv: u16) -> bool {
    let src = move_src(mv);
    let dst = move_dst(mv);
    let us = b.side;
    ||| {
        &&& is_normal(mv)
        &&& b.owned(src, us)
        &&& !b.owned(dst, us)
        &&& match b.piece[src] {
            Piece::Knight => knight_reach(src, dst),
            Piece::Bishop => bishop_reach(src, b.occ(), dst),
            Piece::Rook => rook_reach(src, b.occ(), dst),
            Piece::Queen => queen_reach(src, b.occ(), dst),
            Piece::King => king_reach(src, dst),
            _ => false,
        }
    }
    ||| {
        &&& b.holds(src, Piece::Pawn, us)
        &&& pawn_word_ok(b, mv)
        &&& push_reach(b, src, dst) || (pawn_reach(src, us, dst) && b.owned(dst, us.other()))
    }
    ||| {
        &&& move_kind(mv) == MOVE_ENPASSANT
        &&& move_promo(mv) == 0
        &&& b.ep != NO_SQUARE
        &&& dst == b.ep
        &&& b.holds(src, Piece::Pawn, us)
        &&& pawn_reach(src, us, dst)
    }
    ||| castle_move(b, mv)
}

/// A legal move: one that the rules of movement allow and after which the
/// king of the side that moved is not attacked.
pub open spec fn legal_move(b: Board, mv: u16) -> bool {
    free_move(b, mv) && !make_spec(b, mv).in_check(b.side)
}

/// What the generator gives is allowed by the rules of movement.
pub proof fn lemma_generated_is_free(b: Board, mv: u16)
    requires
        b.ready(),
        generated(b, mv),
    ensures
        free_move(b, mv),
{
    let us = b.side;
    assert(b.holds(b.king_sq(us), Piece::King, us)) by {
        if us == Color::White {
            assert(b.one_king(Color::White));
        } else {
            assert(b.one_king(Color::Black));
        }
    }
}

/// A move is of one sort at most: for the same board, a pawn advance is
/// no pawn capture, neither is a move of another piece, and so on.
pub proof fn lemma_rules_exclusive(b: Board, t1: u64, t2: u64, mv: u16)
    requires
        b.ready(),
    ensures
        !(pawn_push(b, t1, mv) && pawn_capture(b, t2, mv)),
        !(pawn_push(b, t1, mv) && ep_capture(b, t2, mv)),
        !(pawn_capture(b, t1, mv) && ep_capture(b, t2, mv)),
        forall|p: Piece, q: Piece|
            p != q ==> !(#[trigger] piece_move(b, p, t1, mv) && #[trigger] piece_move(
                b,
                q,
                t2,
                mv,
            )),
        forall|p: Piece|
            #[trigger] piece_move(b, p, t1, mv) ==> !pawn_push(b, t2, mv) && !pawn_capture(
                b,
                t2,
                mv,
            ) && !ep_capture(b, t2, mv) && !king_move(b, t2, mv) && !castle_move(b, mv),
        king_move(b, t1, mv) ==> !pawn_push(b, t2, mv) && !pawn_capture(b, t2, mv) && !ep_capture(
            b,
            t2,
            mv,
        ) && !castle_move(b, mv),
        castle_move(b, mv) ==> !pawn_push(b, t2, mv) && !pawn_capture(b, t2, mv) && !ep_capture(
            b,
            t2,
            mv,
        ),
{
    let k = b.king_sq(b.side);
    assert(b.holds(k, Piece::King, b.side)) by {
        if b.side == Color::White {
            assert(b.one_king(Color::White));
        } else {
            assert(b.one_king(Color::Black));
        }
    }
    let src = move_src(mv);
    let dst = move_dst(mv);
    if pawn_push(b, t1, mv) {
        lemma_rank_up(src);
        assert(file(dst) == file(src));
    }
}

/// The advance squares of the one pawn on `src`, read off its bitboard,
/// are the squares the pawn may be pushed to.
pub proof fn lemma_push_reach(b: Board, src: int, pawn: u64, t: int)
    requires
        b.wf(),
        0 <= src < 64,
        b.side != Color::NoColor,
        forall|s: int| bb_has(pawn, s) == (s == src),
    ensures
        pawn_advance(pawn, b.occ(), b.side, t) == push_reach(b, src, t),
{
    lemma_bb_of(|s: int| b.occupied(s));
    lemma_rank_up(src);
    lemma_rank_up(t);
}

/// The squares that are occupied after an en passant capture.
pub proof fn lemma_occ_after_ep(b: Board, src: int)
    ensures
        forall|s: int| #[trigger]
            bb_has(occ_after_ep(b, src), s) == (0 <= s < 64 && (s == b.ep || b.occupied(s)) && s
                != src && s != behind(b.ep as int, b.side)),
        forall|s: int| #[trigger] bb_has(b.occ(), s) == b.occupied(s),
{
    lemma_bb_of(occupied_after_ep(b, src));
    lemma_bb_of(|s: int| b.occupied(s));
}

/// Every move that the rules of movement allow on a playable board suits
/// the pieces of the board.
pub proof fn lemma_free_suits(b: Board, mv: u16)
    requires
        b.playable(),
        free_move(b, mv),
    ensures
        move_suits(b, mv),
{
    let src = move_src(mv);
    let dst = move_dst(mv);
    let us = b.side;
    let k = b.king_sq(us);
    assert(b.holds(k, Piece::King, us)) by {
        if us == Color::White {
            assert(b.one_king(Color::White));
        } else {
            assert(b.one_king(Color::Black));
        }
    }
    crate::moves::lemma_move_word_of_fields(mv);
    assert((b.piece[dst] == Piece::NoPiece) <==> b.color[dst] == Color::NoColor);
    assert((b.piece[src] == Piece::NoPiece) <==> b.color[src] == Color::NoColor);
    lemma_rank_up(src);
    lemma_square(src);
    lemma_square(dst);
    if castle_move(b, mv) {
        lemma_bit_rights(b.castle);
    }
}

/// Every move that the generator gives for a playable board suits the
/// pieces of the board: `make_move` can make it where the counters have
/// room for it.
pub proof fn lemma_generated_suits(b: Board, mv: u16)
    requires
        b.playable(),
        generated(b, mv),
    ensures
        move_suits(b, mv),
{
    lemma_generated_is_free(b, mv);
    lemma_free_suits(b, mv);
}

/// The four castle rights are the four lowest bits.
proof fn lemma_bit_rights(c: u8)
    ensures
        c & WHITE_OO == c & 1,
        c & WHITE_OOO == c & 2,
        c & BLACK_OO == c & 4,
        c & BLACK_OOO == c & 8,
{
}

/// Where the side to move is not in check, the generator gives what the
/// generators of the single pieces give for the whole board, and castling.
pub proof fn lemma_not_in_check_is_union(b: Board, mv: u16)
    requires
        !b.in_check(b.side),
    ensures
        generated(b, mv) == {
            ||| pawn_push(b, ALL_SQUARES, mv)
            ||| pawn_capture(b, ALL_SQUARES, mv)
            ||| ep_capture(b, ALL_SQUARES, mv)
            ||| piece_move(b, Piece::Knight, ALL_SQUARES, mv)
            ||| piece_move(b, Piece::Bishop, ALL_SQUARES, mv)
            ||| piece_move(b, Piece::Rook, ALL_SQUARES, mv)
            ||| piece_move(b, Piece::Queen, ALL_SQUARES, mv)
            ||| king_move(b, ALL_SQUARES, mv)
            ||| castle_move(b, mv)
        },
{
}

/// Making a generated move for which the counters have room and taking it
/// back restores the board.
pub proof fn lemma_generated_move_round_trip(b: Board, mv: u16)
    requires
        b.playable(),
        generated(b, mv),
        has_room(b, mv),
    ensures
        unmake_spec(make_spec(b, mv), undo_of(b, mv)) == b,
{
    lemma_generated_suits(b, mv);
    lemma_unmake_make(b, mv);
}

/// The squares of `block_squares`.
pub proof fn lemma_block_squares(b: Board)
    ensures
        forall|t: int| #[trigger]
            bb_has(block_squares(b), t) == (0 <= t < 64 && (t == the_checker(b) || between(
                the_checker(b),
                b.king_sq(b.side),
                t,
            ))),
{
    lemma_bb_of(|t: int| t == the_checker(b) || between(the_checker(b), b.king_sq(b.side), t));
}

/// The squares of `king_escape_squares`.
pub proof fn lemma_king_escape_squares(b: Board)
    ensures
        forall|t: int| #[trigger]
            bb_has(king_escape_squares(b), t) == (0 <= t < 64 && !b.attacked_by(
                b.side.other(),
                t,
            ) && !on_check_line(b, t)),
{
    lemma_bb_of(|t: int| !b.attacked_by(b.side.other(), t) && !on_check_line(b, t));
}

} // verus!
