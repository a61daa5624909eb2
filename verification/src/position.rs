//! The position: which piece stands where, whose move it is, castle rights,
//! en passant square and the two move counters; making a move and taking it
//! back.

use vstd::prelude::*;
use crate::attack::{pawn_attacks, knight_attacks_from, bishop_attacks, rook_attacks, pawns_attack};
use crate::bitboard::{
    Tables, bb_between, bb_lsb, bb_pop, bb_popcnt, lemma_single_attacker, bb_from_sq, bb_east,
    bb_west,
};
use crate::bits::{
    bb_has, bb_of, lowest, popcount, group_has, lemma_ext, lemma_nonzero, lemma_bb_of,
    lemma_lowest, lemma_popcount_one, lemma_empty,
};
use crate::geometry::{
    rook_reach, bishop_reach, queen_reach, knight_reach, king_reach, pawn_reach, straight,
    diagonal, between, lemma_reach_symmetric, lemma_reach_empty,
};
use crate::moves::{
    Undo, move_src, move_dst, move_kind, move_promo, promo_piece, mv_get_src, mv_get_dst,
    mv_get_kind, mv_get_promo_piece, MOVE_NORMAL, MOVE_PROMO, MOVE_ENPASSANT, MOVE_CASTLE,
};
use crate::square::{rank, file, file_of, make_sq, NO_SQUARE};
use crate::things::{Piece, Color, WHITE_OO, WHITE_OOO, BLACK_OO, BLACK_OOO};

verus! {

broadcast use group_has;

/// The position as a mathematical value: for each square the piece and the
/// side that owns it, and the five scalar fields.
pub ghost struct Board {
    pub piece: Seq<Piece>,
    pub color: Seq<Color>,
    pub side: Color,
    pub castle: u8,
    pub ep: u8,
    pub half: i32,
    pub full: i32,
}

impl Board {
    /// Both square maps have 64 entries, and a square has a piece exactly
    /// when it has an owner.
    pub open spec fn wf(self) -> bool {
        &&& self.piece.len() == 64
        &&& self.color.len() == 64
        &&& forall|s: int|
            0 <= s < 64 ==> ((#[trigger] self.piece[s] == Piece::NoPiece) <==> self.color[s]
                == Color::NoColor)
    }

    /// Square `s` holds a piece of kind `piece` owned by `color`.
    pub open spec fn holds(self, s: int, piece: Piece, color: Color) -> bool {
        0 <= s < 64 && self.piece[s] == piece && self.color[s] == color
    }

    /// Square `s` is on the board and empty.
    pub open spec fn empty(self, s: int) -> bool {
        0 <= s < 64 && self.piece[s] == Piece::NoPiece
    }

    /// Square `s` holds some piece.
    pub open spec fn occupied(self, s: int) -> bool {
        0 <= s < 64 && self.piece[s] != Piece::NoPiece
    }

    /// Square `s` holds a piece owned by `color`.
    pub open spec fn owned(self, s: int, color: Color) -> bool {
        0 <= s < 64 && self.color[s] == color
    }

    /// The occupied squares as a bitboard.
    pub open spec fn occ(self) -> u64 {
        bb_of(|s: int| self.occupied(s))
    }

    /// The piece on square `s` attacks square `t`.
    pub open spec fn attacks(self, s: int, t: int) -> bool {
        &&& 0 <= s < 64
        &&& match self.piece[s] {
            Piece::Pawn => pawn_reach(s, self.color[s], t),
            Piece::Knight => knight_reach(s, t),
            Piece::Bishop => bishop_reach(s, self.occ(), t),
            Piece::Rook => rook_reach(s, self.occ(), t),
            Piece::Queen => queen_reach(s, self.occ(), t),
            Piece::King => king_reach(s, t),
            Piece::NoPiece => false,
        }
    }

    /// Some piece of `color` attacks square `t`.
    pub open spec fn attacked_by(self, color: Color, t: int) -> bool {
        exists|s: int| #[trigger] self.owned(s, color) && self.attacks(s, t)
    }

    /// `color` has a king, and only one.
    pub open spec fn one_king(self, color: Color) -> bool {
        &&& exists|k: int| self.holds(k, Piece::King, color)
        &&& forall|k1: int, k2: int|
            self.holds(k1, Piece::King, color) && self.holds(k2, Piece::King, color) ==> k1 == k2
    }

    /// The square of the king of `color`.
    pub open spec fn king_sq(self, color: Color) -> int {
        choose|k: int| self.holds(k, Piece::King, color)
    }

    /// The board is one the move generator can work on: a side is to
    /// move, each side has one king, and the en passant square is a square
    /// or none.
    pub open spec fn ready(self) -> bool {
        &&& self.wf()
        &&& self.side != Color::NoColor
        &&& self.one_king(Color::White)
        &&& self.one_king(Color::Black)
        &&& (self.ep == NO_SQUARE || self.ep < 64)
    }

    /// Every castle right that is left has its king and rook on their home
    /// squares.
    pub open spec fn castle_consistent(self) -> bool {
        &&& self.castle & WHITE_OO != 0 ==> self.holds(4, Piece::King, Color::White) && self.holds(
            7,
            Piece::Rook,
            Color::White,
        )
        &&& self.castle & WHITE_OOO != 0 ==> self.holds(4, Piece::King, Color::White)
            && self.holds(0, Piece::Rook, Color::White)
        &&& self.castle & BLACK_OO != 0 ==> self.holds(60, Piece::King, Color::Black)
            && self.holds(63, Piece::Rook, Color::Black)
        &&& self.castle & BLACK_OOO != 0 ==> self.holds(60, Piece::King, Color::Black)
            && self.holds(56, Piece::Rook, Color::Black)
    }

    /// The en passant square, where there is one, is empty, and a pawn of
    /// the side that just moved stands behind it.
    pub open spec fn ep_consistent(self) -> bool {
        self.ep != NO_SQUARE ==> self.empty(self.ep as int) && self.holds(
            behind(self.ep as int, self.side),
            Piece::Pawn,
            self.side.other(),
        )
    }

    /// The board is one whose pieces every generated move suits: the
    /// generator can work on it, and castle rights and en passant square
    /// agree with the pieces.
    pub open spec fn playable(self) -> bool {
        &&& self.ready()
        &&& self.castle_consistent()
        &&& self.ep_consistent()
    }

    /// The board is playable, and the side that is not to move is not in
    /// check.
    pub open spec fn legal(self) -> bool {
        &&& self.playable()
        &&& !self.attacked_by(self.side, self.king_sq(self.side.other()))
    }

    /// The king of `color` is attacked by the other side.
    pub open spec fn in_check(self, color: Color) -> bool {
        self.attacked_by(color.other(), self.king_sq(color))
    }

    /// The piece on `s` gives check to the side to move: it belongs to the
    /// other side, is no king, and attacks the king of the side to move.
    pub open spec fn checker(self, s: int) -> bool {
        &&& self.owned(s, self.side.other())
        &&& self.piece[s] != Piece::King
        &&& self.attacks(s, self.king_sq(self.side))
    }

    /// The piece on `q` is a slider of the side not to move that stands on
    /// a line of its kind with the king of the side to move.
    pub open spec fn aims_at_king(self, q: int) -> bool {
        let k = self.king_sq(self.side);
        &&& self.owned(q, self.side.other())
        &&& {
            ||| ((self.piece[q] == Piece::Bishop || self.piece[q] == Piece::Queen) && diagonal(k, q))
            ||| ((self.piece[q] == Piece::Rook || self.piece[q] == Piece::Queen) && straight(k, q))
        }
    }

    /// The slider on `q` pins the piece on `p` to the king of the side to
    /// move: `p` belongs to the side to move and is the only piece between
    /// the king and `q`.
    pub open spec fn pins(self, q: int, p: int) -> bool {
        let k = self.king_sq(self.side);
        &&& self.aims_at_king(q)
        &&& self.owned(p, self.side)
        &&& between(k, q, p)
        &&& forall|u: int| between(k, q, u) && #[trigger] self.occupied(u) ==> u == p
    }

    /// The piece on `p` is pinned to the king of the side to move.
    pub open spec fn pinned(self, p: int) -> bool {
        exists|q: int| #[trigger] self.pins(q, p)
    }

    /// The board with `piece` of `color` on square `s`.
    pub open spec fn put(self, s: int, piece: Piece, color: Color) -> Board {
        Board { piece: self.piece.update(s, piece), color: self.color.update(s, color), ..self }
    }

    /// The board with square `s` emptied.
    pub open spec fn clear(self, s: int) -> Board {
        Board {
            piece: self.piece.update(s, Piece::NoPiece),
            color: self.color.update(s, Color::NoColor),
            ..self
        }
    }

    /// The board without pieces: White to move, no castle rights, no en
    /// passant square, both counters zero.
    pub open spec fn start() -> Board {
        Board {
            piece: Seq::new(64, |s: int| Piece::NoPiece),
            color: Seq::new(64, |s: int| Color::NoColor),
            side: Color::White,
            castle: 0,
            ep: NO_SQUARE,
            half: 0,
            full: 0,
        }
    }
}

/// What a move that touches a square leaves of the castle rights: 15
/// everywhere but on the two kings' and the four rooks' home squares.
pub const CASTLE_RIGHTS: [u8; 64] = [
    13, 15, 15, 15, 12, 15, 15, 14,
    15, 15, 15, 15, 15, 15, 15, 15,
    15, 15, 15, 15, 15, 15, 15, 15,
    15, 15, 15, 15, 15, 15, 15, 15,
    15, 15, 15, 15, 15, 15, 15, 15,
    15, 15, 15, 15, 15, 15, 15, 15,
    15, 15, 15, 15, 15, 15, 15, 15,
    7, 15, 15, 15, 3, 15, 15, 11,
];

/// The square one rank behind `sq`, seen from the side `us`.
pub open spec fn behind(sq: int, us: Color) -> int {
    if us == Color::White {
        sq - 8
    } else {
        sq + 8
    }
}

/// First square of the home rank of `us`: a1 for White, a8 for Black.
pub open spec fn home(us: Color) -> int {
    if us == Color::White {
        0
    } else {
        56
    }
}

/// Where the rook stands before castling with the king going from `src` to
/// `dst`: the h-file when the king goes towards it, else the a-file.
pub open spec fn castle_rook_src(src: int, dst: int, us: Color) -> int {
    home(us) + if file(src) < file(dst) {
        7int
    } else {
        0int
    }
}

/// Where the rook stands after castling: the f-file or the d-file.
pub open spec fn castle_rook_dst(src: int, dst: int, us: Color) -> int {
    home(us) + if file(src) < file(dst) {
        5int
    } else {
        3int
    }
}

/// A pawn of `them` stands next to `sq` on the same rank.
pub open spec fn pawn_beside(b: Board, sq: int, them: Color) -> bool {
    ||| (file(sq) != 7 && b.holds(sq + 1, Piece::Pawn, them))
    ||| (file(sq) != 0 && b.holds(sq - 1, Piece::Pawn, them))
}

/// The move `mv` advances the halfmove clock of the board `b`: it neither
/// captures on its destination nor moves a pawn.
pub open spec fn advances_clock(b: Board, mv: u16) -> bool {
    b.piece[move_dst(mv)] == Piece::NoPiece && b.piece[move_src(mv)] != Piece::Pawn
}

/// The counters of the board `b` have room for the move `mv`: the halfmove
/// clock can advance where the move advances it, and the fullmove number
/// can where Black moves.
pub open spec fn has_room(b: Board, mv: u16) -> bool {
    &&& advances_clock(b, mv) ==> b.half < i32::MAX
    &&& b.side == Color::Black ==> b.full < i32::MAX
}

/// What `make_move` asks of a move on a board: the move suits the pieces,
/// and the counters have room for it.
pub open spec fn move_fits(b: Board, mv: u16) -> bool {
    move_suits(b, mv) && has_room(b, mv)
}

/// The move `mv` suits the pieces of the board `b`. The side to move owns
/// the piece on the source square and not the one on the destination, and
/// the move's kind agrees with the board:
/// a pawn that goes two ranks goes forward; a promotion moves a pawn; an en
/// passant capture moves a pawn to the empty en passant square behind which
/// an enemy pawn stands; castling moves the king from the e-file of its home
/// rank to the g- or c-file, onto an empty square, with the rook in its
/// corner and the rook's destination empty.
pub open spec fn move_suits(b: Board, mv: u16) -> bool {
    let src = move_src(mv);
    let dst = move_dst(mv);
    let kind = move_kind(mv);
    let us = b.side;
    let mover = b.piece[src];
    &&& us != Color::NoColor
    &&& b.color[src] == us
    &&& b.color[dst] != us
    &&& kind == MOVE_NORMAL && mover == Piece::Pawn ==> {
        &&& dst - src == 16 ==> us == Color::White
        &&& src - dst == 16 ==> us == Color::Black
    }
    &&& kind == MOVE_PROMO ==> mover == Piece::Pawn
    &&& kind == MOVE_ENPASSANT ==> {
        &&& mover == Piece::Pawn
        &&& b.empty(dst)
        &&& dst == b.ep
        &&& b.holds(behind(dst, us), Piece::Pawn, us.other())
    }
    &&& kind == MOVE_CASTLE ==> {
        &&& mover == Piece::King
        &&& src == home(us) + 4
        &&& (dst == home(us) + 6 || dst == home(us) + 2)
        &&& b.empty(dst)
        &&& b.empty(castle_rook_dst(src, dst, us))
        &&& b.holds(castle_rook_src(src, dst, us), Piece::Rook, us)
    }
}

/// The record that `make_move` returns for the move `mv` on board `b`.
pub open spec fn undo_of(b: Board, mv: u16) -> Undo {
    Undo { mv, captured: b.piece[move_dst(mv)], castle: b.castle, half: b.half, ep: b.ep }
}

/// The pieces after the move `mv` on board `b`.
pub open spec fn moved_pieces(b: Board, mv: u16) -> Board {
    let src = move_src(mv);
    let dst = move_dst(mv);
    let kind = move_kind(mv);
    let us = b.side;
    let b1 = if b.piece[dst] != Piece::NoPiece {
        b.clear(dst)
    } else {
        b
    };
    let b2 = b1.clear(src);
    if kind == MOVE_ENPASSANT {
        b2.clear(behind(dst, us)).put(dst, Piece::Pawn, us)
    } else if kind == MOVE_CASTLE {
        b2.clear(castle_rook_src(src, dst, us)).put(dst, Piece::King, us).put(
            castle_rook_dst(src, dst, us),
            Piece::Rook,
            us,
        )
    } else if kind == MOVE_PROMO {
        b2.put(dst, promo_piece(move_promo(mv)), us)
    } else {
        b2.put(dst, b.piece[src], us)
    }
}

/// The board after the move `mv` on board `b`: the pieces moved, the
/// halfmove clock reset by a capture or a pawn move and else advanced, the
/// fullmove number advanced after Black's move, the en passant square set
/// only behind a pawn that went two ranks and now stands beside an enemy
/// pawn, the castle rights cut by what the source and destination squares
/// leave of them, and the other side to move.
pub open spec fn make_spec(b: Board, mv: u16) -> Board {
    let src = move_src(mv);
    let dst = move_dst(mv);
    let kind = move_kind(mv);
    let us = b.side;
    let mover = b.piece[src];
    let pieces = moved_pieces(b, mv);
    let double_push = kind == MOVE_NORMAL && mover == Piece::Pawn && (dst - src == 16 || src
        - dst == 16);
    Board {
        piece: pieces.piece,
        color: pieces.color,
        side: us.other(),
        castle: b.castle & CASTLE_RIGHTS[src] & CASTLE_RIGHTS[dst],
        ep: if double_push && pawn_beside(b, dst, us.other()) {
            behind(dst, us) as u8
        } else {
            NO_SQUARE
        },
        half: if b.piece[dst] != Piece::NoPiece || mover == Piece::Pawn {
            0i32
        } else {
            (b.half + 1) as i32
        },
        full: if us == Color::Black {
            (b.full + 1) as i32
        } else {
            b.full
        },
    }
}

/// The pieces after the move of `undo` is taken back on board `b`, up to
/// the step that puts a captured piece back on the destination square.
pub open spec fn unmoved_base(b: Board, undo: Undo) -> Board {
    let src = move_src(undo.mv);
    let dst = move_dst(undo.mv);
    let us = b.side.other();
    let b1 = b.clear(dst).put(src, b.piece[dst], us);
    if undo.captured != Piece::NoPiece {
        b1.put(dst, undo.captured, b.side)
    } else {
        b1
    }
}

/// The pieces after the move of `undo` is taken back on board `b`.
pub open spec fn unmoved_pieces(b: Board, undo: Undo) -> Board {
    let src = move_src(undo.mv);
    let dst = move_dst(undo.mv);
    let kind = move_kind(undo.mv);
    let us = b.side.other();
    let b2 = unmoved_base(b, undo);
    if kind == MOVE_ENPASSANT {
        b2.put(behind(undo.ep as int, us), Piece::Pawn, b.side)
    } else if kind == MOVE_CASTLE {
        b2.clear(castle_rook_dst(src, dst, us)).put(
            castle_rook_src(src, dst, us),
            Piece::Rook,
            us,
        )
    } else if kind == MOVE_PROMO {
        b2.clear(src).put(src, Piece::Pawn, us)
    } else {
        b2
    }
}

/// The board after the move of `undo` is taken back on board `b`: the
/// pieces back, the side that moved to move again, the fullmove number back
/// after Black's move, and castle rights, halfmove clock and en passant
/// square as `undo` recorded them.
pub open spec fn unmake_spec(b: Board, undo: Undo) -> Board {
    let us = b.side.other();
    let pieces = unmoved_pieces(b, undo);
    Board {
        piece: pieces.piece,
        color: pieces.color,
        side: us,
        castle: undo.castle,
        ep: undo.ep,
        half: undo.half,
        full: if us == Color::Black {
            (b.full - 1) as i32
        } else {
            b.full
        },
    }
}

/// What `unmake_move` asks of a record on a board: the destination square
/// holds the piece that moved, the source square is empty, the fullmove
/// number can go back where Black moved, and for an en passant capture the
/// square behind the recorded en passant square is empty, for castling the
/// rook stands on its destination and its corner is empty.
pub open spec fn undo_fits(b: Board, undo: Undo) -> bool {
    let src = move_src(undo.mv);
    let dst = move_dst(undo.mv);
    let kind = move_kind(undo.mv);
    let us = b.side.other();
    let b2 = unmoved_base(b, undo);
    &&& b.side != Color::NoColor
    &&& b.occupied(dst)
    &&& b.empty(src)
    &&& us == Color::Black ==> b.full > i32::MIN
    &&& kind == MOVE_ENPASSANT ==> undo.ep < 64 && b2.empty(behind(undo.ep as int, us))
    &&& kind == MOVE_CASTLE ==> {
        &&& b2.occupied(castle_rook_dst(src, dst, us))
        &&& b2.clear(castle_rook_dst(src, dst, us)).empty(castle_rook_src(src, dst, us))
    }
}

/// A move that suits a well-formed board leaves a well-formed board.
pub proof fn lemma_make_suits(b: Board, mv: u16)
    requires
        b.wf(),
        move_suits(b, mv),
    ensures
        make_spec(b, mv).wf(),
{
    let a = make_spec(b, mv);
    assert forall|s: int| 0 <= s < 64 implies ((#[trigger] a.piece[s] == Piece::NoPiece)
        <==> a.color[s] == Color::NoColor) by {
        assert((b.piece[s] == Piece::NoPiece) <==> b.color[s] == Color::NoColor);
    }
}

/// A move that fits a well-formed board leaves a well-formed board, and the
/// record of the move fits that board.
pub proof fn lemma_make_fits(b: Board, mv: u16)
    requires
        b.wf(),
        move_fits(b, mv),
    ensures
        make_spec(b, mv).wf(),
        undo_fits(make_spec(b, mv), undo_of(b, mv)),
{
    let a = make_spec(b, mv);
    assert forall|s: int| 0 <= s < 64 implies ((#[trigger] a.piece[s] == Piece::NoPiece)
        <==> a.color[s] == Color::NoColor) by {
        assert((b.piece[s] == Piece::NoPiece) <==> b.color[s] == Color::NoColor);
    }
}

/// Taking back a move that was just made restores the board: every square,
/// the side to move, castle rights, en passant square and both counters.
pub proof fn lemma_unmake_make(b: Board, mv: u16)
    requires
        b.wf(),
        move_fits(b, mv),
    ensures
        unmake_spec(make_spec(b, mv), undo_of(b, mv)) == b,
{
    let a = make_spec(b, mv);
    let r = unmake_spec(a, undo_of(b, mv));
    let src = move_src(mv);
    let dst = move_dst(mv);
    assert((b.piece[src] == Piece::NoPiece) <==> b.color[src] == Color::NoColor);
    assert((b.piece[dst] == Piece::NoPiece) <==> b.color[dst] == Color::NoColor);
    assert(r.piece =~= b.piece);
    assert(r.color =~= b.color);
}

/// Some slider of `pinners` pins the piece on `p`.
pub open spec fn pinned_by(b: Board, pinners: u64, p: int) -> bool {
    exists|q: int| #[trigger] bb_has(pinners, q) && b.pins(q, p)
}

/// A piece gives check exactly when the king, moving like that piece,
/// would reach it.
pub proof fn lemma_checker(b: Board, s: int)
    requires
        b.wf(),
        b.side != Color::NoColor,
        b.one_king(b.side),
    ensures
        b.checker(s) == {
            let k = b.king_sq(b.side);
            let them = b.side.other();
            ||| (b.holds(s, Piece::Pawn, them) && pawn_reach(k, b.side, s))
            ||| (b.holds(s, Piece::Knight, them) && knight_reach(k, s))
            ||| ((b.holds(s, Piece::Bishop, them) || b.holds(s, Piece::Queen, them))
                && bishop_reach(k, b.occ(), s))
            ||| ((b.holds(s, Piece::Rook, them) || b.holds(s, Piece::Queen, them)) && rook_reach(
                k,
                b.occ(),
                s,
            ))
        },
{
    let k = b.king_sq(b.side);
    assert(b.holds(k, Piece::King, b.side));
    lemma_reach_symmetric(s, b.occ(), k);
    crate::square::lemma_square(k);
    if 0 <= s < 64 {
        crate::square::lemma_square(s);
    }
}

/// The test for a pin by the slider on `q`: no piece of its own side stands
/// between it and the king, and one piece of the king's side.
proof fn lemma_pin_test(b: Board, q: int, line: u64, theirs: u64, ours: u64, p: int)
    requires
        b.wf(),
        b.side != Color::NoColor,
        b.one_king(b.side),
        b.aims_at_king(q),
        forall|u: int| bb_has(line, u) == between(b.king_sq(b.side), q, u),
        forall|s: int| bb_has(theirs, s) == b.owned(s, b.side.other()),
        forall|s: int| bb_has(ours, s) == b.owned(s, b.side),
    ensures
        b.pins(q, p) == (line & theirs == 0 && popcount(ours & line) == 1 && bb_has(
            ours & line,
            p,
        )),
{
    let k = b.king_sq(b.side);
    let own = ours & line;
    lemma_popcount_one(own);
    lemma_lowest(own);
    if b.pins(q, p) {
        assert forall|u: int| 0 <= u < 64 implies !bb_has(line & theirs, u) by {
            if bb_has(line & theirs, u) {
                assert(b.occupied(u));
                assert((b.piece[u] == Piece::NoPiece) <==> b.color[u] == Color::NoColor);
            }
        }
        lemma_empty(line & theirs);
        assert(bb_has(own, p));
        assert forall|u: int| bb_has(own, u) implies u == lowest(own) by {
            assert((b.piece[u] == Piece::NoPiece) <==> b.color[u] == Color::NoColor);
            assert(b.occupied(u));
            assert((b.piece[lowest(own)] == Piece::NoPiece) <==> b.color[lowest(own)]
                == Color::NoColor);
            assert(b.occupied(lowest(own)));
        }
    }
    if line & theirs == 0 && popcount(own) == 1 && bb_has(own, p) {
        assert forall|u: int| between(k, q, u) && #[trigger] b.occupied(u) implies u == p by {
            assert((b.piece[u] == Piece::NoPiece) <==> b.color[u] == Color::NoColor);
            if b.owned(u, b.side) {
                assert(bb_has(own, u));
            } else {
                assert(bb_has(line & theirs, u));
            }
        }
    }
}

/// No piece gives check exactly when the king of the side to move is not
/// attacked, provided the two kings do not stand next to each other: a king
/// attacks, but is never counted among the pieces that give check.
pub proof fn lemma_no_checkers_iff_not_in_check(b: Board, checkers: u64, attacks: u64)
    requires
        b.ready(),
        !king_reach(b.king_sq(b.side.other()), b.king_sq(b.side)),
        forall|s: int| bb_has(checkers, s) == b.checker(s),
        forall|t: int| bb_has(attacks, t) == b.attacked_by(b.side.other(), t),
    ensures
        (checkers == 0) == !b.in_check(b.side),
        (checkers == 0) == !bb_has(attacks, b.king_sq(b.side)),
{
    let them = b.side.other();
    let k = b.king_sq(b.side);
    if b.in_check(b.side) {
        let s = choose|s: int| #[trigger] b.owned(s, them) && b.attacks(s, k);
        if b.piece[s] == Piece::King {
            assert(b.holds(s, Piece::King, them));
            assert(b.holds(b.king_sq(them), Piece::King, them)) by {
                if them == Color::White {
                    assert(b.one_king(Color::White));
                } else {
                    assert(b.one_king(Color::Black));
                }
            }
            if them == Color::White {
                assert(b.one_king(Color::White));
            } else {
                assert(b.one_king(Color::Black));
            }
            assert(s == b.king_sq(them));
        }
        assert(b.checker(s));
        assert(bb_has(checkers, s));
    }
    if checkers != 0 {
        lemma_nonzero(checkers);
        let s = choose|s: int| bb_has(checkers, s);
        assert(b.owned(s, them) && b.attacks(s, k));
    }
}

/// Making a move that fits and taking it back restores the position in
/// every field: bitboards, square arrays, side to move, castle rights, en
/// passant square and both counters.
pub proof fn lemma_make_unmake_restores(
    before: Position,
    mv: u16,
    made: Position,
    undo: Undo,
    after: Position,
)
    requires
        before.wf(),
        move_fits(before@, mv),
        made.wf(),
        made@ == make_spec(before@, mv),
        undo == undo_of(before@, mv),
        after.wf(),
        after@ == unmake_spec(made@, undo),
    ensures
        after == before,
{
    before.lemma_view();
    lemma_unmake_make(before@, mv);
    Position::lemma_view_determines(after, before);
}

/// A chess position. The pieces are kept twice: as one bitboard per piece
/// kind and per side, and as two arrays indexed by square.
#[derive(Clone, Copy, PartialEq, Debug)]
pub struct Position {
    bb_piece: [u64; 6],
    bb_color: [u64; 2],
    piece_sq: [Piece; 64],
    color_sq: [Color; 64],
    /// Side to move.
    pub side: Color,
    /// Castle rights, one bit each.
    pub castle: u8,
    /// En passant target square, or `NO_SQUARE`.
    pub ep: u8,
    half: i32,
    full: i32,
}

impl View for Position {
    type V = Board;

    closed spec fn view(&self) -> Board {
        Board {
            piece: self.piece_sq@,
            color: self.color_sq@,
            side: self.side,
            castle: self.castle,
            ep: self.ep,
            half: self.half,
            full: self.full,
        }
    }
}

impl Position {
    /// The bitboards and the square arrays say the same, and every occupied
    /// square has an owner.
    pub closed spec fn wf(&self) -> bool {
        &&& self@.wf()
        &&& forall|p: int, s: int|
            0 <= p < 6 && 0 <= s < 64 ==> (#[trigger] bb_has(self.bb_piece[p], s)
                <==> self.piece_sq[s].number() == p)
        &&& forall|c: int, s: int|
            0 <= c < 2 && 0 <= s < 64 ==> (#[trigger] bb_has(self.bb_color[c], s)
                <==> self.color_sq[s].number() == c)
    }

    /// A well-formed position has a well-formed view.
    pub broadcast proof fn lemma_view(&self)
        requires
            #[trigger] self.wf(),
        ensures
            self@.wf(),
    {
    }

    /// Two well-formed positions with the same view are equal in every field.
    pub proof fn lemma_view_determines(a: Position, b: Position)
        requires
            a.wf(),
            b.wf(),
            a@ == b@,
        ensures
            a == b,
    {
        assert(a.piece_sq =~= b.piece_sq);
        assert(a.color_sq =~= b.color_sq);
        assert forall|p: int| 0 <= p < 6 implies a.bb_piece[p] == b.bb_piece[p] by {
            assert forall|s: int| 0 <= s < 64 implies bb_has(a.bb_piece[p], s) == bb_has(
                b.bb_piece[p],
                s,
            ) by {}
            lemma_ext(a.bb_piece[p], b.bb_piece[p]);
        }
        assert forall|c: int| 0 <= c < 2 implies a.bb_color[c] == b.bb_color[c] by {
            assert forall|s: int| 0 <= s < 64 implies bb_has(a.bb_color[c], s) == bb_has(
                b.bb_color[c],
                s,
            ) by {}
            lemma_ext(a.bb_color[c], b.bb_color[c]);
        }
        assert(a.bb_piece =~= b.bb_piece);
        assert(a.bb_color =~= b.bb_color);
    }

    /// The position without pieces.
    pub fn new() -> (pos: Position)
        ensures
            pos.wf(),
            pos@ == Board::start(),
    {
        let pos = Position {
            bb_piece: [0;6],
            bb_color: [0;2],
            piece_sq: [Piece::NoPiece;64],
            color_sq: [Color::NoColor;64],
            side: Color::White,
            ep: NO_SQUARE,
            castle: 0,
            half: 0,
            full: 0,
        };
        assert(pos@.piece =~= Board::start().piece);
        assert(pos@.color =~= Board::start().color);
        pos
    }

    /// The side that is not to move.
    pub fn enemy(&self) -> (color: Color)
        requires
            self@.side != Color::NoColor,
        ensures
            color == self@.side.other(),
            color != Color::NoColor,
    {
        match self.side {
            Color::White => Color::Black,
            _ => Color::White,
        }
    }

    /// The side to move.
    pub fn us(&self) -> (color: Color)
        ensures
            color == self@.side,
    {
        self.side
    }

    /// The occupied squares.
    pub fn occupancy(&self) -> (bb: u64)
        requires
            self.wf(),
        ensures
            forall|s: int| bb_has(bb, s) == self@.occupied(s),
            bb == self@.occ(),
    {
        let bb = self.bb_color[0] | self.bb_color[1];
        proof {
            assert forall|s: int| bb_has(bb, s) == self@.occupied(s) by {
                if 0 <= s < 64 {
                    assert(bb_has(self.bb_color[0], s) <==> self.color_sq[s].number() == 0);
                    assert(bb_has(self.bb_color[1], s) <==> self.color_sq[s].number() == 1);
                    assert(self@.piece[s] == Piece::NoPiece <==> self@.color[s] == Color::NoColor);
                }
            }
            lemma_bb_of(|s: int| self@.occupied(s));
            lemma_ext(bb, self@.occ());
        }
        bb
    }

    /// The pieces of kind `piece` of `color`.
    fn pieces_of(&self, piece: Piece, color: Color) -> (bb: u64)
        requires
            self.wf(),
            piece != Piece::NoPiece,
            color != Color::NoColor,
        ensures
            forall|s: int| bb_has(bb, s) == self@.holds(s, piece, color),
    {
        let p = piece.index();
        let c = color.index();
        let bb = self.bb_piece[p] & self.bb_color[c];
        proof {
            assert forall|s: int| bb_has(bb, s) == self@.holds(s, piece, color) by {
                if 0 <= s < 64 {
                    assert(bb_has(self.bb_piece[p as int], s) <==> self.piece_sq[s].number() == p);
                    assert(bb_has(self.bb_color[c as int], s) <==> self.color_sq[s].number() == c);
                }
            }
        }
        bb
    }

    /// The pawns of the side to move.
    pub fn our_pawns(&self) -> (bb: u64)
        requires
            self.wf(),
            self@.side != Color::NoColor,
        ensures
            forall|s: int| bb_has(bb, s) == self@.holds(s, Piece::Pawn, self@.side),
    {
        self.pawns(self.side)
    }

    /// The knights of the side to move.
    pub fn our_knights(&self) -> (bb: u64)
        requires
            self.wf(),
            self@.side != Color::NoColor,
        ensures
            forall|s: int| bb_has(bb, s) == self@.holds(s, Piece::Knight, self@.side),
    {
        self.knights(self.side)
    }

    /// The bishops of the side to move.
    pub fn our_bishops(&self) -> (bb: u64)
        requires
            self.wf(),
            self@.side != Color::NoColor,
        ensures
            forall|s: int| bb_has(bb, s) == self@.holds(s, Piece::Bishop, self@.side),
    {
        self.bishops(self.side)
    }

    /// The rooks of the side to move.
    pub fn our_rooks(&self) -> (bb: u64)
        requires
            self.wf(),
            self@.side != Color::NoColor,
        ensures
            forall|s: int| bb_has(bb, s) == self@.holds(s, Piece::Rook, self@.side),
    {
        self.rooks(self.side)
    }

    /// The queens of the side to move.
    pub fn our_queens(&self) -> (bb: u64)
        requires
            self.wf(),
            self@.side != Color::NoColor,
        ensures
            forall|s: int| bb_has(bb, s) == self@.holds(s, Piece::Queen, self@.side),
    {
        self.queens(self.side)
    }

    /// The king of the side to move.
    pub fn our_king(&self) -> (bb: u64)
        requires
            self.wf(),
            self@.side != Color::NoColor,
        ensures
            forall|s: int| bb_has(bb, s) == self@.holds(s, Piece::King, self@.side),
    {
        self.king(self.side)
    }

    /// All pieces of the side to move.
    pub fn our_pieces(&self) -> (bb: u64)
        requires
            self.wf(),
            self@.side != Color::NoColor,
        ensures
            forall|s: int| bb_has(bb, s) == self@.owned(s, self@.side),
    {
        self.pieces(self.side)
    }

    /// The pawns of the side not to move.
    pub fn their_pawns(&self) -> (bb: u64)
        requires
            self.wf(),
            self@.side != Color::NoColor,
        ensures
            forall|s: int| bb_has(bb, s) == self@.holds(s, Piece::Pawn, self@.side.other()),
    {
        self.pawns(self.enemy())
    }

    /// The knights of the side not to move.
    pub fn their_knights(&self) -> (bb: u64)
        requires
            self.wf(),
            self@.side != Color::NoColor,
        ensures
            forall|s: int| bb_has(bb, s) == self@.holds(s, Piece::Knight, self@.side.other()),
    {
        self.knights(self.enemy())
    }

    /// The bishops of the side not to move.
    pub fn their_bishops(&self) -> (bb: u64)
        requires
            self.wf(),
            self@.side != Color::NoColor,
        ensures
            forall|s: int| bb_has(bb, s) == self@.holds(s, Piece::Bishop, self@.side.other()),
    {
        self.bishops(self.enemy())
    }

    /// The rooks of the side not to move.
    pub fn their_rooks(&self) -> (bb: u64)
        requires
            self.wf(),
            self@.side != Color::NoColor,
        ensures
            forall|s: int| bb_has(bb, s) == self@.holds(s, Piece::Rook, self@.side.other()),
    {
        self.rooks(self.enemy())
    }

    /// The queens of the side not to move.
    pub fn their_queens(&self) -> (bb: u64)
        requires
            self.wf(),
            self@.side != Color::NoColor,
        ensures
            forall|s: int| bb_has(bb, s) == self@.holds(s, Piece::Queen, self@.side.other()),
    {
        self.queens(self.enemy())
    }

    /// The king of the side not to move.
    pub fn their_king(&self) -> (bb: u64)
        requires
            self.wf(),
            self@.side != Color::NoColor,
        ensures
            forall|s: int| bb_has(bb, s) == self@.holds(s, Piece::King, self@.side.other()),
    {
        self.king(self.enemy())
    }

    /// All pieces of the side not to move.
    pub fn their_pieces(&self) -> (bb: u64)
        requires
            self.wf(),
            self@.side != Color::NoColor,
        ensures
            forall|s: int| bb_has(bb, s) == self@.owned(s, self@.side.other()),
    {
        self.pieces(self.enemy())
    }

    /// All pieces of `color`.
    fn pieces(&self, color: Color) -> (bb: u64)
        requires
            self.wf(),
            color != Color::NoColor,
        ensures
            forall|s: int| bb_has(bb, s) == self@.owned(s, color),
    {
        let c = color.index();
        let bb = self.bb_color[c];
        proof {
            assert forall|s: int| bb_has(bb, s) == self@.owned(s, color) by {
                if 0 <= s < 64 {
                    assert(bb_has(self.bb_color[c as int], s) <==> self.color_sq[s].number() == c);
                }
            }
        }
        bb
    }

    /// The pawns of `color`.
    pub fn pawns(&self, color: Color) -> (bb: u64)
        requires
            self.wf(),
            color != Color::NoColor,
        ensures
            forall|s: int| bb_has(bb, s) == self@.holds(s, Piece::Pawn, color),
    {
        self.pieces_of(Piece::Pawn, color)
    }

    /// The knights of `color`.
    pub fn knights(&self, color: Color) -> (bb: u64)
        requires
            self.wf(),
            color != Color::NoColor,
        ensures
            forall|s: int| bb_has(bb, s) == self@.holds(s, Piece::Knight, color),
    {
        self.pieces_of(Piece::Knight, color)
    }

    /// The bishops of `color`.
    pub fn bishops(&self, color: Color) -> (bb: u64)
        requires
            self.wf(),
            color != Color::NoColor,
        ensures
            forall|s: int| bb_has(bb, s) == self@.holds(s, Piece::Bishop, color),
    {
        self.pieces_of(Piece::Bishop, color)
    }

    /// The rooks of `color`.
    pub fn rooks(&self, color: Color) -> (bb: u64)
        requires
            self.wf(),
            color != Color::NoColor,
        ensures
            forall|s: int| bb_has(bb, s) == self@.holds(s, Piece::Rook, color),
    {
        self.pieces_of(Piece::Rook, color)
    }

    /// The queens of `color`.
    pub fn queens(&self, color: Color) -> (bb: u64)
        requires
            self.wf(),
            color != Color::NoColor,
        ensures
            forall|s: int| bb_has(bb, s) == self@.holds(s, Piece::Queen, color),
    {
        self.pieces_of(Piece::Queen, color)
    }

    /// The king of `color`.
    pub fn king(&self, color: Color) -> (bb: u64)
        requires
            self.wf(),
            color != Color::NoColor,
        ensures
            forall|s: int| bb_has(bb, s) == self@.holds(s, Piece::King, color),
    {
        self.pieces_of(Piece::King, color)
    }

    /// The piece on square `sq`, `NoPiece` for an empty square.
    pub fn piece_on(&self, sq: u8) -> (piece: Piece)
        requires
            sq < 64,
        ensures
            piece == self@.piece[sq as int],
    {
        self.piece_sq[sq as usize]
    }

    /// The owner of the piece on square `sq`, `NoColor` for an empty square.
    pub fn color_on(&self, sq: u8) -> (color: Color)
        requires
            sq < 64,
        ensures
            color == self@.color[sq as int],
    {
        self.color_sq[sq as usize]
    }

    /// The castle rights.
    pub fn castle_rights(&self) -> (castle: u8)
        ensures
            castle == self@.castle,
    {
        self.castle
    }

    /// The en passant target square, or `NO_SQUARE`.
    pub fn ep_square(&self) -> (ep: u8)
        ensures
            ep == self@.ep,
    {
        self.ep
    }

    /// The halfmove clock.
    pub fn halfmove_clock(&self) -> (half: i32)
        ensures
            half == self@.half,
    {
        self.half
    }

    /// The fullmove number.
    pub fn fullmove_number(&self) -> (full: i32)
        ensures
            full == self@.full,
    {
        self.full
    }

    /// Whether a pawn of `them` stands next to `sq` on the same rank.
    fn beside_pawn(&self, sq: u8, them: Color) -> (beside: bool)
        requires
            self.wf(),
            sq < 64,
            them != Color::NoColor,
        ensures
            beside == pawn_beside(self@, sq as int, them),
    {
        let pawns = self.pawns(them);
        let here = bb_from_sq(sq);
        let to_east = bb_east(here);
        let to_west = bb_west(here);
        let east = to_east & pawns;
        let west = to_west & pawns;
        proof {
            if east != 0 {
                lemma_nonzero(east);
                let s = choose|s: int| bb_has(east, s);
                assert(bb_has(to_east, s) && bb_has(pawns, s));
                assert(s == sq + 1);
                assert(file(s) != 0);
                assert(file(sq as int) != 7);
            }
            if west != 0 {
                lemma_nonzero(west);
                let s = choose|s: int| bb_has(west, s);
                assert(bb_has(to_west, s) && bb_has(pawns, s));
                assert(s == sq - 1);
                assert(file(s) != 7);
                assert(file(sq as int) != 0);
            }
            if file(sq as int) != 7 && self@.holds(sq + 1, Piece::Pawn, them) {
                assert(bb_has(pawns, sq + 1));
                assert(bb_has(here, sq as int));
                assert(0 <= sq + 1 < 64);
                assert(file(sq + 1) != 0);
                assert(bb_has(to_east, sq + 1));
                assert(bb_has(east, sq + 1));
            }
            if file(sq as int) != 0 && self@.holds(sq - 1, Piece::Pawn, them) {
                assert(bb_has(pawns, sq - 1));
                assert(bb_has(here, sq as int));
                assert(0 <= sq - 1 < 64);
                assert(file(sq - 1) != 7);
                assert(bb_has(to_west, sq - 1));
                assert(bb_has(west, sq - 1));
            }
        }
        east != 0 || west != 0
    }

    /// Makes the move `mv` and returns the record that takes it back.
    pub fn make_move(&mut self, mv: u16) -> (undo: Undo)
        requires
            old(self).wf(),
            move_fits(old(self)@, mv),
        ensures
            final(self).wf(),
            final(self)@ == make_spec(old(self)@, mv),
            undo == undo_of(old(self)@, mv),
            undo_fits(final(self)@, undo),
    {
        let src = mv_get_src(mv);
        let dst = mv_get_dst(mv);
        let kind = mv_get_kind(mv);
        let moved_piece = self.piece_on(src);
        let captured_piece = self.piece_on(dst);
        let is_capture = captured_piece != Piece::NoPiece;
        let is_pawn_mv = moved_piece == Piece::Pawn;
        let us = self.side;
        let enemy = self.enemy();
        let undo = Undo {
            mv: mv,
            captured: captured_piece,
            castle: self.castle,
            half: self.half,
            ep: self.ep,
        };
        let ghost b = self@;
        proof {
            lemma_make_fits(b, mv);
            assert((b.piece[src as int] == Piece::NoPiece) <==> b.color[src as int]
                == Color::NoColor);
            assert((b.piece[dst as int] == Piece::NoPiece) <==> b.color[dst as int]
                == Color::NoColor);
        }

        if is_capture || is_pawn_mv {
            self.half = 0;
        } else {
            self.half = self.half + 1;
        }
        if us == Color::Black {
            self.full = self.full + 1;
        }
        if is_capture {
            self.clear_sq(dst);
        }
        self.ep = NO_SQUARE;
        self.clear_sq(src);

        if kind == MOVE_ENPASSANT {
            let capture_sq = if us == Color::White {
                dst - 8
            } else {
                dst + 8
            };
            self.clear_sq(capture_sq);
            self.put_piece(dst, Piece::Pawn, us);
        } else if kind == MOVE_CASTLE {
            // The move's source and destination are the king's; the rook
            // comes from the corner that the king moves towards.
            let src_file = file_of(src);
            let dst_file = file_of(dst);
            let rook_src_file: u8 = if src_file < dst_file {
                7
            } else {
                0
            };
            let rook_dst_file: u8 = if rook_src_file == 7 {
                5
            } else {
                3
            };
            let rank: u8 = if us == Color::White {
                0
            } else {
                7
            };
            let rook_src_sq = make_sq(rank, rook_src_file);
            let rook_dst_sq = make_sq(rank, rook_dst_file);
            self.clear_sq(rook_src_sq);
            self.put_piece(dst, Piece::King, us);
            self.put_piece(rook_dst_sq, Piece::Rook, us);
        } else if kind == MOVE_PROMO {
            let promoted_piece = mv_get_promo_piece(mv);
            self.put_piece(dst, promoted_piece, us);
        } else {
            self.put_piece(dst, moved_piece, us);
            let two_ranks = if dst >= src {
                dst - src == 16
            } else {
                src - dst == 16
            };
            if moved_piece == Piece::Pawn && two_ranks {
                // The en passant square is set only where the pawn draws up
                // beside an enemy pawn.
                let beside = self.beside_pawn(dst, enemy);
                proof {
                    assert(dst + 1 != src && dst - 1 != src);
                    if file(dst as int) != 7 {
                        assert(b.piece[dst + 1] == self@.piece[dst + 1]);
                        assert(b.color[dst + 1] == self@.color[dst + 1]);
                    }
                    if file(dst as int) != 0 {
                        assert(b.piece[dst - 1] == self@.piece[dst - 1]);
                        assert(b.color[dst - 1] == self@.color[dst - 1]);
                    }
                    assert(beside == pawn_beside(b, dst as int, enemy));
                }
                if beside {
                    self.ep = if us == Color::White {
                        dst - 8
                    } else {
                        dst + 8
                    };
                }
            }
        }

        self.castle = self.castle & CASTLE_RIGHTS[src as usize];
        self.castle = self.castle & CASTLE_RIGHTS[dst as usize];
        self.side = enemy;
        proof {
            assert(self@.piece =~= make_spec(b, mv).piece);
            assert(self@.color =~= make_spec(b, mv).color);
            assert(self@.side == make_spec(b, mv).side);
            assert(self@.castle == make_spec(b, mv).castle);
            assert(self@.half == make_spec(b, mv).half);
            assert(self@.full == make_spec(b, mv).full);
            assert(self@.ep == make_spec(b, mv).ep);
        }
        undo
    }

    /// Takes back the move that `undo` records.
    pub fn unmake_move(&mut self, undo: Undo)
        requires
            old(self).wf(),
            undo_fits(old(self)@, undo),
        ensures
            final(self).wf(),
            final(self)@ == unmake_spec(old(self)@, undo),
    {
        // Source and destination are seen from the side that made the move.
        let src = mv_get_src(undo.mv);
        let dst = mv_get_dst(undo.mv);
        let kind = mv_get_kind(undo.mv);
        let piece = self.piece_on(dst);
        let captured = undo.captured;
        let enemy = self.side;
        let ghost b = self@;

        self.side = if self.side == Color::White {
            Color::Black
        } else {
            Color::White
        };
        let us = self.side;
        if us == Color::Black {
            self.full = self.full - 1;
        }

        self.clear_sq(dst);
        self.put_piece(src, piece, us);
        if captured != Piece::NoPiece {
            self.put_piece(dst, captured, enemy);
        }

        if kind == MOVE_ENPASSANT {
            // The captured pawn goes back behind the en passant square.
            let sq = if us == Color::White {
                undo.ep - 8
            } else {
                undo.ep + 8
            };
            self.put_piece(sq, Piece::Pawn, enemy);
        } else if kind == MOVE_CASTLE {
            // The king is back already; the rook follows.
            let rank: u8 = if us == Color::White {
                0
            } else {
                7
            };
            let rook_src_file: u8 = if file_of(dst) > file_of(src) {
                7
            } else {
                0
            };
            let rook_dst_file: u8 = if rook_src_file == 7 {
                5
            } else {
                3
            };
            let rook_dst_sq = make_sq(rank, rook_dst_file);
            let rook_src_sq = make_sq(rank, rook_src_file);
            self.clear_sq(rook_dst_sq);
            self.put_piece(rook_src_sq, Piece::Rook, us);
        } else if kind == MOVE_PROMO {
            // The promoted piece turns back into a pawn.
            self.clear_sq(src);
            self.put_piece(src, Piece::Pawn, us);
        }
        self.castle = undo.castle;
        self.half = undo.half;
        self.ep = undo.ep;
        proof {
            assert(self@.piece =~= unmake_spec(b, undo).piece);
            assert(self@.color =~= unmake_spec(b, undo).color);
        }
    }

    /// Whether `color` has a king, and only one.
    fn has_one_king(&self, color: Color) -> (one: bool)
        requires
            self.wf(),
            color != Color::NoColor,
        ensures
            one == self@.one_king(color),
    {
        let king = self.king(color);
        proof {
            lemma_popcount_one(king);
            lemma_lowest(king);
            let b = self@;
            if b.one_king(color) {
                let k = choose|k: int| b.holds(k, Piece::King, color);
                assert(bb_has(king, k));
                assert forall|s: int| bb_has(king, s) implies s == lowest(king) by {
                    assert(b.holds(s, Piece::King, color));
                    assert(b.holds(lowest(king), Piece::King, color));
                }
            }
            if popcount(king) == 1 {
                assert(b.holds(lowest(king), Piece::King, color));
                assert forall|k1: int, k2: int|
                    b.holds(k1, Piece::King, color) && b.holds(
                        k2,
                        Piece::King,
                        color,
                    ) implies k1 == k2 by {
                    assert(bb_has(king, k1));
                    assert(bb_has(king, k2));
                }
            }
        }
        bb_popcnt(king) == 1
    }

    /// Whether square `sq` holds `piece` of `color`.
    fn holds_piece(&self, sq: u8, piece: Piece, color: Color) -> (holds: bool)
        requires
            sq < 64,
        ensures
            holds == self@.holds(sq as int, piece, color),
    {
        self.piece_on(sq) == piece && self.color_on(sq) == color
    }

    /// Whether the move generator can work on the position: a side is to
    /// move, each side has one king, and the en passant square is a square
    /// or none.
    pub fn is_ready(&self) -> (ready: bool)
        requires
            self.wf(),
        ensures
            ready == self@.ready(),
    {
        proof {
            self.lemma_view();
        }
        self.side != Color::NoColor && self.has_one_king(Color::White) && self.has_one_king(
            Color::Black,
        ) && (self.ep == NO_SQUARE || self.ep < 64)
    }

    /// Whether every generated move suits the pieces of the position: the
    /// generator can work on it, and castle rights and en passant square
    /// agree with the pieces.
    pub fn is_playable(&self) -> (playable: bool)
        requires
            self.wf(),
        ensures
            playable == self@.playable(),
    {
        if !self.is_ready() {
            return false;
        }
        let white_king = self.holds_piece(4, Piece::King, Color::White);
        let black_king = self.holds_piece(60, Piece::King, Color::Black);
        if self.castle & WHITE_OO != 0 && !(white_king && self.holds_piece(
            7,
            Piece::Rook,
            Color::White,
        )) {
            return false;
        }
        if self.castle & WHITE_OOO != 0 && !(white_king && self.holds_piece(
            0,
            Piece::Rook,
            Color::White,
        )) {
            return false;
        }
        if self.castle & BLACK_OO != 0 && !(black_king && self.holds_piece(
            63,
            Piece::Rook,
            Color::Black,
        )) {
            return false;
        }
        if self.castle & BLACK_OOO != 0 && !(black_king && self.holds_piece(
            56,
            Piece::Rook,
            Color::Black,
        )) {
            return false;
        }
        if self.ep != NO_SQUARE {
            if self.piece_on(self.ep) != Piece::NoPiece {
                return false;
            }
            if self.side == Color::White {
                if self.ep < 8 || !self.holds_piece(self.ep - 8, Piece::Pawn, Color::Black) {
                    return false;
                }
            } else {
                if self.ep >= 56 || !self.holds_piece(self.ep + 8, Piece::Pawn, Color::White) {
                    return false;
                }
            }
        }
        true
    }

    /// Whether the counters have room for the move `mv`: the halfmove clock
    /// where the move advances it, the fullmove number where Black moves.
    pub fn has_room(&self, mv: u16) -> (room: bool)
        requires
            self.wf(),
        ensures
            room == has_room(self@, mv),
    {
        proof {
            self.lemma_view();
        }
        let quiet = self.piece_on(mv_get_dst(mv)) == Piece::NoPiece && self.piece_on(
            mv_get_src(mv),
        ) != Piece::Pawn;
        (!quiet || self.half < i32::MAX) && (self.side != Color::Black || self.full < i32::MAX)
    }

    /// Whether the position is playable and the side that is not to move
    /// is not in check.
    pub fn is_legal(&self, tables: &Tables) -> (legal: bool)
        requires
            self.wf(),
            tables.wf(),
        ensures
            legal == self@.legal(),
    {
        if !self.is_playable() {
            return false;
        }
        let attacks = crate::attack::all_attacks(tables.attack(), self, self.side);
        let their_king = self.their_king();
        let seen = attacks & their_king;
        proof {
            let b = self@;
            let them = b.side.other();
            let k = b.king_sq(them);
            assert(b.holds(k, Piece::King, them)) by {
                if them == Color::White {
                    assert(b.one_king(Color::White));
                } else {
                    assert(b.one_king(Color::Black));
                }
            }
            if seen != 0 {
                lemma_nonzero(seen);
                let s = choose|s: int| bb_has(seen, s);
                assert(b.holds(s, Piece::King, them));
                if them == Color::White {
                    assert(b.one_king(Color::White));
                } else {
                    assert(b.one_king(Color::Black));
                }
                assert(s == k);
            }
            if b.attacked_by(b.side, k) {
                assert(bb_has(seen, k));
            }
        }
        seen == 0
    }

    /// The pieces that give check to the side to move.
    pub fn calc_checkers(&self, tables: &Tables) -> (checkers: u64)
        requires
            self.wf(),
            tables.wf(),
            self@.side != Color::NoColor,
            self@.one_king(self@.side),
        ensures
            forall|s: int| bb_has(checkers, s) == self@.checker(s),
    {
        let king = self.our_king();
        let king_sq = bb_lsb(king);
        let their_pawns = self.their_pawns();
        let their_knights = self.their_knights();
        let their_rooks = self.their_rooks();
        let their_bishops = self.their_bishops();
        let their_queens = self.their_queens();
        let their_diagonals = their_queens | their_bishops;
        let their_straights = their_queens | their_rooks;
        let occupancy = self.occupancy();
        let ghost b = self@;
        let ghost k = b.king_sq(b.side);
        proof {
            assert(b.holds(k, Piece::King, b.side));
            assert(bb_has(king, k));
            lemma_lowest(king);
            assert(b.holds(lowest(king), Piece::King, b.side));
            assert(king_sq == k);
            assert forall|s: int| bb_has(king, s) == (s == k) by {}
        }
        let as_pawn = pawn_attacks(king, self.us());
        let as_knight = knight_attacks_from(tables.attack(), king_sq);
        let as_bishop = bishop_attacks(tables.attack(), king, occupancy);
        let as_rook = rook_attacks(tables.attack(), king, occupancy);
        let mut attackers: u64 = 0;
        attackers |= as_pawn & their_pawns;
        attackers |= as_knight & their_knights;
        attackers |= as_bishop & their_diagonals;
        attackers |= as_rook & their_straights;
        proof {
            assert forall|s: int| bb_has(attackers, s) == b.checker(s) by {
                lemma_checker(b, s);
                lemma_single_attacker(k, king, occupancy, s);
                assert(pawns_attack(king, b.side, s) == pawn_reach(k, b.side, s)) by {
                    if pawn_reach(k, b.side, s) {
                        assert(bb_has(king, k) && pawn_reach(k, b.side, s));
                    }
                }
                if 0 <= s < 64 {
                    assert((b.piece[s] == Piece::NoPiece) <==> b.color[s] == Color::NoColor);
                }
            }
        }
        attackers
    }

    /// The pieces of the side to move that are pinned to their king.
    pub fn calc_pinned(&self, tables: &Tables) -> (pinned: u64)
        requires
            self.wf(),
            tables.wf(),
            self@.side != Color::NoColor,
            self@.one_king(self@.side),
        ensures
            forall|p: int| bb_has(pinned, p) == self@.pinned(p),
    {
        let mut pinned: u64 = 0;
        let their_queens = self.their_queens();
        let their_rooks = self.their_rooks();
        let their_bishops = self.their_bishops();
        let their_diagonals = their_queens | their_bishops;
        let their_straights = their_queens | their_rooks;
        let our_king = self.our_king();
        let king_sq = bb_lsb(our_king);
        let their_pieces = self.their_pieces();
        let our_pieces = self.our_pieces();
        let ghost b = self@;
        let ghost k = b.king_sq(b.side);
        proof {
            assert(b.holds(k, Piece::King, b.side));
            assert(bb_has(our_king, k));
            lemma_lowest(our_king);
            assert(b.holds(lowest(our_king), Piece::King, b.side));
            assert(king_sq == k);
            assert forall|s: int| bb_has(our_king, s) == (s == k) by {}
        }
        // A queen in the king's place on an empty board attacks every
        // slider that could pin a piece to the king.
        let diagonals = bishop_attacks(tables.attack(), our_king, 0);
        let straights = rook_attacks(tables.attack(), our_king, 0);
        let candidates = (their_diagonals & diagonals) | (their_straights & straights);
        proof {
            assert forall|q: int| bb_has(candidates, q) == b.aims_at_king(q) by {
                lemma_single_attacker(k, our_king, 0, q);
                lemma_reach_empty(k, q, 0);
            }
        }
        let mut rest = candidates;
        while rest != 0
            invariant
                self.wf(),
                tables.wf(),
                b == self@,
                b.wf(),
                b.side != Color::NoColor,
                b.one_king(b.side),
                k == b.king_sq(b.side),
                king_sq == k,
                0 <= k < 64,
                forall|s: int| bb_has(their_pieces, s) == b.owned(s, b.side.other()),
                forall|s: int| bb_has(our_pieces, s) == b.owned(s, b.side),
                forall|q: int| bb_has(candidates, q) == b.aims_at_king(q),
                forall|q: int| bb_has(rest, q) ==> bb_has(candidates, q),
                forall|p: int| bb_has(pinned, p) == pinned_by(b, candidates & !rest, p),
            decreases popcount(rest),
        {
            let ghost before = rest;
            let ghost pinned_before = pinned;
            let sq = bb_pop(&mut rest);
            let line = bb_between(tables, king_sq, sq);
            let mut found: u64 = 0;
            if line & their_pieces == 0 {
                let maybe_pinned = our_pieces & line;
                if bb_popcnt(maybe_pinned) == 1 {
                    found = maybe_pinned;
                }
            }
            pinned = pinned | found;
            proof {
                assert forall|p: int| bb_has(found, p) == b.pins(sq as int, p) by {
                    lemma_pin_test(b, sq as int, line, their_pieces, our_pieces, p);
                }
                assert forall|p: int| bb_has(pinned, p) == pinned_by(b, candidates & !rest, p) by {
                    if pinned_by(b, candidates & !rest, p) {
                        let q = choose|q: int| #[trigger]
                            bb_has(candidates & !rest, q) && b.pins(q, p);
                        if q != sq {
                            assert(bb_has(candidates & !before, q));
                        }
                    }
                    if bb_has(pinned_before, p) {
                        let q = choose|q: int| #[trigger]
                            bb_has(candidates & !before, q) && b.pins(q, p);
                        assert(bb_has(candidates & !rest, q));
                    }
                    if bb_has(found, p) {
                        assert(bb_has(candidates & !rest, sq as int));
                    }
                }
            }
        }
        proof {
            assert forall|p: int| bb_has(pinned, p) == b.pinned(p) by {
                if b.pinned(p) {
                    let q = choose|q: int| #[trigger] b.pins(q, p);
                    assert(bb_has(candidates & !rest, q));
                }
                if pinned_by(b, candidates & !rest, p) {
                    let q = choose|q: int| #[trigger]
                        bb_has(candidates & !rest, q) && b.pins(q, p);
                    assert(b.pins(q, p));
                }
            }
        }
        pinned
    }

    /// Puts `piece` of `color` on the empty square `sq`.
    pub(crate) fn put_piece(&mut self, sq: u8, piece: Piece, color: Color)
        requires
            old(self).wf(),
            sq < 64,
            piece != Piece::NoPiece,
            color != Color::NoColor,
            old(self)@.empty(sq as int),
        ensures
            final(self).wf(),
            final(self)@ == old(self)@.put(sq as int, piece, color),
    {
        let s_idx = sq as usize;
        let p_idx = piece.index();
        let c_idx = color.index();
        let bb = bb_from_sq(sq);
        assert(old(self)@.color[sq as int] == Color::NoColor);
        self.piece_sq[s_idx] = piece;
        self.color_sq[s_idx] = color;
        self.bb_piece[p_idx] = self.bb_piece[p_idx] | bb;
        self.bb_color[c_idx] = self.bb_color[c_idx] | bb;
        proof {
            assert forall|p: int, s: int| 0 <= p < 6 && 0 <= s < 64 implies (#[trigger] bb_has(
                self.bb_piece[p],
                s,
            ) <==> self.piece_sq[s].number() == p) by {
                assert(bb_has(old(self).bb_piece[p], s) <==> old(self).piece_sq[s].number() == p);
            }
            assert forall|c: int, s: int| 0 <= c < 2 && 0 <= s < 64 implies (#[trigger] bb_has(
                self.bb_color[c],
                s,
            ) <==> self.color_sq[s].number() == c) by {
                assert(bb_has(old(self).bb_color[c], s) <==> old(self).color_sq[s].number() == c);
            }
        }
    }

    /// Takes the piece off the square `sq`.
    fn clear_sq(&mut self, sq: u8)
        requires
            old(self).wf(),
            old(self)@.occupied(sq as int),
        ensures
            final(self).wf(),
            final(self)@ == old(self)@.clear(sq as int),
    {
        let s_idx = sq as usize;
        assert(old(self)@.color[sq as int] != Color::NoColor);
        let p_idx = self.piece_on(sq).index();
        let c_idx = self.color_on(sq).index();
        let bb = bb_from_sq(sq);
        self.piece_sq[s_idx] = Piece::NoPiece;
        self.color_sq[s_idx] = Color::NoColor;
        self.bb_piece[p_idx] = self.bb_piece[p_idx] & !bb;
        self.bb_color[c_idx] = self.bb_color[c_idx] & !bb;
        proof {
            assert forall|p: int, s: int| 0 <= p < 6 && 0 <= s < 64 implies (#[trigger] bb_has(
                self.bb_piece[p],
                s,
            ) <==> self.piece_sq[s].number() == p) by {
                assert(bb_has(old(self).bb_piece[p], s) <==> old(self).piece_sq[s].number() == p);
            }
            assert forall|c: int, s: int| 0 <= c < 2 && 0 <= s < 64 implies (#[trigger] bb_has(
                self.bb_color[c],
                s,
            ) <==> self.color_sq[s].number() == c) by {
                assert(bb_has(old(self).bb_color[c], s) <==> old(self).color_sq[s].number() == c);
            }
        }
    }

    /// Sets the side to move, the castle rights, the en passant square and
    /// both counters.
    pub(crate) fn set_state(&mut self, side: Color, castle: u8, ep: u8, half: i32, full: i32)
        requires
            old(self).wf(),
        ensures
            final(self).wf(),
            final(self)@ == (Board { side, castle, ep, half, full, ..old(self)@ }),
    {
        self.side = side;
        self.castle = castle;
        self.ep = ep;
        self.half = half;
        self.full = full;
    }

    /// Takes all pieces off the board.
    fn clear(&mut self)
        ensures
            final(self).wf(),
            final(self)@ == (Board {
                piece: Board::start().piece,
                color: Board::start().color,
                ..old(self)@
            }),
    {
        self.bb_piece = [0;6];
        self.bb_color = [0;2];
        self.piece_sq = [Piece::NoPiece;64];
        self.color_sq = [Color::NoColor;64];
        assert(self@.piece =~= Board::start().piece);
        assert(self@.color =~= Board::start().color);
    }
}

} // verus!
