//! Moves as 16-bit words, the record that takes a move back, and the legal
//! move generator.

use vstd::prelude::*;
use crate::attack::{
    all_attacks, knight_attacks_from, bishop_attacks, rook_attacks, queen_attacks, king_attacks,
    pawn_attacks, pawns_attack,
};
use crate::bitboard::{
    Tables, bb_from_sq, bb_lsb, bb_pop, bb_popcnt, bb_ray, bb_between, bb_east, bb_west, bb_north,
    bb_south, pawn_advances, lemma_single_attacker, lemma_file_mask, lemma_rank_mask,
    FILE_BITBOARDS, RANK_BITBOARDS,
};
use crate::bits::{
    bb_has, lowest, popcount, group_has, lemma_ext, lemma_nonzero, lemma_lowest, lemma_bb_of,
    lemma_popcount_one,
};
use crate::geometry::{on_line, between, pawn_reach, rook_reach, bishop_reach};
use crate::position::{Position, Board, move_suits, behind};
use crate::rules::{
    legal_move, move_order, lemma_move_order, is_normal, pin_ok, piece_reach, piece_move,
    king_move, pawn_word_ok, promotion_rank, pawn_push, pawn_capture, occ_after_ep,
    ep_exposes_king, ep_opens_straight, ep_opens_diagonal, ep_capture, castle_open, castle_move,
    slider_checker, on_check_line,
    king_escape_squares, single_check, the_checker, block_squares, evasion_move, generated,
    ALL_SQUARES, lemma_rules_exclusive, lemma_push_reach, lemma_occ_after_ep, castle_side,
};
use crate::square::{rank, file, rank_of, file_of, make_sq, NO_SQUARE, lemma_square, lemma_file_up};
use crate::things::{Piece, Color, WHITE_OO, WHITE_OOO, BLACK_OO, BLACK_OOO};

verus! {

broadcast use group_has;

/// Kind of a move that is neither a promotion, an en passant capture nor
/// castling.
pub const MOVE_NORMAL: u8 = 0;

/// Kind of a pawn move that promotes.
pub const MOVE_PROMO: u8 = 1;

/// Kind of an en passant capture.
pub const MOVE_ENPASSANT: u8 = 2;

/// Kind of a castling move; source and destination are the king's.
pub const MOVE_CASTLE: u8 = 3;

/// The rank on which a pawn promotes, by side: the eighth for White, the
/// first for Black.
pub const PROMOTION_RANKS: [u8; 2] = [7, 0];

/// The move word with the given fields: source in bits 0 to 5, destination
/// in bits 6 to 11, kind in bits 12 and 13, promotion code in bits 14 and 15.
pub open spec fn move_word(src: int, dst: int, kind: int, promo: int) -> int {
    src + 64 * dst + 4096 * kind + 16384 * promo
}

/// Source square of a move word.
pub open spec fn move_src(mv: u16) -> int {
    mv as int % 64
}

/// Destination square of a move word.
pub open spec fn move_dst(mv: u16) -> int {
    (mv as int / 64) % 64
}

/// Kind of a move word.
pub open spec fn move_kind(mv: u16) -> int {
    (mv as int / 4096) % 4
}

/// Promotion code of a move word: 0 knight, 1 bishop, 2 rook, 3 queen.
pub open spec fn move_promo(mv: u16) -> int {
    mv as int / 16384
}

/// The piece that a promotion code stands for.
pub open spec fn promo_piece(code: int) -> Piece {
    if code == 0 {
        Piece::Knight
    } else if code == 1 {
        Piece::Bishop
    } else if code == 2 {
        Piece::Rook
    } else {
        Piece::Queen
    }
}

/// The fields of a move word, cut out by shifts and masks, are its digits
/// to the bases 64, 64, 4 and 4; and putting four fields together by shifts
/// is adding them up.
proof fn lemma_bit_move_fields()
    by (bit_vector)
    ensures
        forall|mv: u16| #[trigger] (mv & 0x3f) == mv % 64,
        forall|mv: u16| #[trigger] ((mv >> 6) & 0x3f) == (mv / 64) % 64,
        forall|mv: u16| #[trigger] ((mv >> 12) & 0x3) == (mv / 4096) % 4,
        forall|mv: u16| #[trigger] ((mv >> 14) & 0x3) == mv / 16384,
        forall|src: u16, dst: u16, kind: u16, promo: u16|
            src < 64 && dst < 64 && kind < 4 && promo < 4 ==> #[trigger] ((promo << 14) | (kind
                << 12) | (dst << 6) | src) == src + 64 * dst + 4096 * kind + 16384 * promo,
{
}

/// Every move word is the word of its four fields, and the fields of a word
/// built from four fields are those fields.
pub proof fn lemma_move_fields(src: int, dst: int, kind: int, promo: int)
    requires
        0 <= src < 64,
        0 <= dst < 64,
        0 <= kind < 4,
        0 <= promo < 4,
    ensures
        0 <= move_word(src, dst, kind, promo) < 0x10000,
        move_src(move_word(src, dst, kind, promo) as u16) == src,
        move_dst(move_word(src, dst, kind, promo) as u16) == dst,
        move_kind(move_word(src, dst, kind, promo) as u16) == kind,
        move_promo(move_word(src, dst, kind, promo) as u16) == promo,
{
}

/// A move word is determined by its four fields.
pub proof fn lemma_move_word_of_fields(mv: u16)
    ensures
        mv == move_word(move_src(mv), move_dst(mv), move_kind(mv), move_promo(mv)),
        0 <= move_src(mv) < 64,
        0 <= move_dst(mv) < 64,
        0 <= move_kind(mv) < 4,
        0 <= move_promo(mv) < 4,
{
}

/// The move word with the given fields; `piece` is the number of the piece
/// promoted to, 1 for a knight up to 4 for a queen.
fn mv_create(src: u8, dst: u8, kind: u8, piece: u8) -> (mv: u16)
    requires
        src < 64,
        dst < 64,
        kind < 4,
        1 <= piece <= 4,
    ensures
        mv == move_word(src as int, dst as int, kind as int, piece - 1),
{
    let src = src as u16;
    let dst = dst as u16;
    let kind = kind as u16;
    let piece = piece as u16;
    proof {
        lemma_bit_move_fields();
    }
    ((piece - 1) << 14) | (kind << 12) | (dst << 6) | src
}

/// The move from `src` to `dst` of kind normal.
pub fn mv_create_normal(src: u8, dst: u8) -> (mv: u16)
    requires
        src < 64,
        dst < 64,
    ensures
        mv == move_word(src as int, dst as int, MOVE_NORMAL as int, 0),
{
    mv_create(src, dst, MOVE_NORMAL, 1)
}

/// The pawn move from `src` to `dst` that promotes to `piece`, given by its
/// number: 1 knight, 2 bishop, 3 rook, 4 queen.
pub fn mv_create_promo(src: u8, dst: u8, piece: u8) -> (mv: u16)
    requires
        src < 64,
        dst < 64,
        1 <= piece <= 4,
    ensures
        mv == move_word(src as int, dst as int, MOVE_PROMO as int, piece - 1),
{
    mv_create(src, dst, MOVE_PROMO, piece)
}

/// The castling move that takes the king from `src` to `dst`.
pub fn mv_create_castle(src: u8, dst: u8) -> (mv: u16)
    requires
        src < 64,
        dst < 64,
    ensures
        mv == move_word(src as int, dst as int, MOVE_CASTLE as int, 0),
{
    mv_create(src, dst, MOVE_CASTLE, 1)
}

/// The en passant capture from `src` to `dst`.
pub fn mv_create_ep(src: u8, dst: u8) -> (mv: u16)
    requires
        src < 64,
        dst < 64,
    ensures
        mv == move_word(src as int, dst as int, MOVE_ENPASSANT as int, 0),
{
    mv_create(src, dst, MOVE_ENPASSANT, 1)
}

/// Source square of a move.
pub fn mv_get_src(mv: u16) -> (src: u8)
    ensures
        src == move_src(mv),
        src < 64,
{
    proof {
        lemma_bit_move_fields();
    }
    (mv & 0x3f) as u8
}

/// Destination square of a move.
pub fn mv_get_dst(mv: u16) -> (dst: u8)
    ensures
        dst == move_dst(mv),
        dst < 64,
{
    proof {
        lemma_bit_move_fields();
    }
    ((mv >> 6) & 0x3f) as u8
}

/// Kind of a move: one of `MOVE_NORMAL`, `MOVE_PROMO`, `MOVE_ENPASSANT`,
/// `MOVE_CASTLE`.
pub fn mv_get_kind(mv: u16) -> (kind: u8)
    ensures
        kind == move_kind(mv),
        kind < 4,
{
    proof {
        lemma_bit_move_fields();
    }
    ((mv >> 12) & 0x3) as u8
}

/// The piece that a promotion promotes to. For a move of another kind the
/// two bits are read all the same.
pub fn mv_get_promo_piece(mv: u16) -> (piece: Piece)
    ensures
        piece == promo_piece(move_promo(mv)),
{
    proof {
        lemma_bit_move_fields();
    }
    let code = (mv >> 14) & 0x3;
    if code == 0 {
        Piece::Knight
    } else if code == 1 {
        Piece::Bishop
    } else if code == 2 {
        Piece::Rook
    } else {
        Piece::Queen
    }
}

/// What `make_move` hands back so that `unmake_move` can restore the
/// position: the move, what it captured, and the castle rights, halfmove
/// clock and en passant square from before the move.
#[derive(Clone, Copy, Debug)]
pub struct Undo {
    pub mv: u16,
    pub captured: Piece,
    pub castle: u8,
    pub half: i32,
    pub ep: u8,
}

/// The list `new_list` is the list `old_list` with moves appended: the
/// appended moves are the moves that satisfy `added`, and the list holds no
/// move twice if `old_list` held none twice and none that satisfies
/// `added`.
#[verifier::opaque]
pub open spec fn extends(old_list: Seq<u16>, new_list: Seq<u16>, added: spec_fn(u16) -> bool) -> bool {
    &&& old_list.len() <= new_list.len()
    &&& new_list.subrange(0, old_list.len() as int) == old_list
    &&& forall|i: int| old_list.len() <= i < new_list.len() ==> added(#[trigger] new_list[i])
    &&& forall|m: u16|
        #![trigger new_list.contains(m)]
        #![trigger added(m)]
        new_list.contains(m) <==> old_list.contains(m) || added(m)
    &&& (old_list.no_duplicates() && (forall|m: u16|
        #![trigger old_list.contains(m)]
        #![trigger added(m)]
        old_list.contains(m) ==> !added(m))) ==> new_list.no_duplicates()
}

/// A list extends itself by nothing.
pub proof fn lemma_extends_none(list: Seq<u16>, added: spec_fn(u16) -> bool)
    requires
        forall|m: u16| !#[trigger] added(m),
    ensures
        extends(list, list, added),
{
    reveal(extends);
    assert(list.subrange(0, list.len() as int) =~= list);
}

/// What a list is extended by may be described in another way.
pub proof fn lemma_extends_same(
    old_list: Seq<u16>,
    new_list: Seq<u16>,
    added: spec_fn(u16) -> bool,
    other: spec_fn(u16) -> bool,
)
    requires
        extends(old_list, new_list, added),
        forall|m: u16| #[trigger] added(m) == other(m),
    ensures
        extends(old_list, new_list, other),
{
    reveal(extends);
}

/// Appending a move that was not yet added extends the list by that move.
pub proof fn lemma_extends_push(
    old_list: Seq<u16>,
    cur: Seq<u16>,
    added: spec_fn(u16) -> bool,
    mv: u16,
    after: spec_fn(u16) -> bool,
)
    requires
        extends(old_list, cur, added),
        !added(mv),
        forall|m: u16| #[trigger] after(m) == (added(m) || m == mv),
    ensures
        extends(old_list, cur.push(mv), after),
{
    reveal(extends);
    let new_list = cur.push(mv);
    assert(new_list.subrange(0, old_list.len() as int) =~= cur.subrange(0, old_list.len() as int));
    assert forall|m: u16| new_list.contains(m) <==> old_list.contains(m) || after(m) by {
        if new_list.contains(m) {
            let i = choose|i: int| 0 <= i < new_list.len() && new_list[i] == m;
            if i < cur.len() {
                assert(cur[i] == m);
                assert(cur.contains(m));
            }
        }
        if cur.contains(m) {
            let i = choose|i: int| 0 <= i < cur.len() && cur[i] == m;
            assert(new_list[i] == m);
        }
        if m == mv {
            assert(new_list[cur.len() as int] == m);
        }
    }
    if old_list.no_duplicates() && (forall|m: u16|
        #![trigger old_list.contains(m)]
        #![trigger after(m)]
        old_list.contains(m) ==> !after(m)) {
        assert(!old_list.contains(mv));
        assert(!cur.contains(mv));
        assert forall|i: int, j: int|
            0 <= i < new_list.len() && 0 <= j < new_list.len() && i != j implies new_list[i]
            != new_list[j] by {
            if i < cur.len() && j < cur.len() {
                assert(cur[i] != cur[j]);
            } else if i < cur.len() {
                assert(cur.contains(cur[i]));
            } else {
                assert(cur.contains(cur[j]));
            }
        }
    }
}

/// Extending a list twice, by moves of two kinds that exclude each other,
/// extends it by the moves of either kind.
pub proof fn lemma_extends_then(
    a: Seq<u16>,
    b: Seq<u16>,
    c: Seq<u16>,
    first: spec_fn(u16) -> bool,
    second: spec_fn(u16) -> bool,
    both: spec_fn(u16) -> bool,
)
    requires
        extends(a, b, first),
        extends(b, c, second),
        forall|m: u16| !(#[trigger] first(m) && second(m)),
        forall|m: u16| #[trigger] both(m) == (first(m) || second(m)),
    ensures
        extends(a, c, both),
{
    reveal(extends);
    assert(c.subrange(0, a.len() as int) =~= c.subrange(0, b.len() as int).subrange(
        0,
        a.len() as int,
    ));
    assert forall|i: int| a.len() <= i < c.len() implies both(#[trigger] c[i]) by {
        if i < b.len() {
            assert(c.subrange(0, b.len() as int)[i] == c[i]);
            assert(first(b[i]));
        } else {
            assert(second(c[i]));
        }
    }
}

/// From index `start` on, the moves of `list` come in the order of the
/// generator, with places from `lo` to `hi`.
pub open spec fn ordered_from(b: Board, list: Seq<u16>, start: int, lo: int, hi: int) -> bool {
    &&& forall|i: int, j: int|
        start <= i < j < list.len() ==> move_order(b, #[trigger] list[i]) <= move_order(
            b,
            #[trigger] list[j],
        )
    &&& forall|i: int| start <= i < list.len() ==> lo <= move_order(b, #[trigger] list[i]) <= hi
}

/// Moves that all have the same place in the order of the generator are
/// in order.
pub proof fn lemma_ordered_single(
    b: Board,
    old_list: Seq<u16>,
    new_list: Seq<u16>,
    added: spec_fn(u16) -> bool,
    place: int,
)
    requires
        extends(old_list, new_list, added),
        forall|m: u16| #[trigger] added(m) ==> move_order(b, m) == place,
    ensures
        ordered_from(b, new_list, old_list.len() as int, place, place),
{
    reveal(extends);
}

/// Two ordered stretches, the second with later places than the first,
/// make one ordered stretch.
pub proof fn lemma_ordered_join(
    b: Board,
    first: Seq<u16>,
    both: Seq<u16>,
    start: int,
    lo: int,
    mid: int,
    hi: int,
)
    requires
        0 <= start <= first.len() <= both.len(),
        both.subrange(0, first.len() as int) == first,
        ordered_from(b, first, start, lo, mid),
        ordered_from(b, both, first.len() as int, mid, hi),
        lo <= mid <= hi,
    ensures
        ordered_from(b, both, start, lo, hi),
{
    assert forall|i: int| 0 <= i < first.len() implies both[i] == first[i] by {
        assert(both.subrange(0, first.len() as int)[i] == both[i]);
    }
}

/// A list that extends another starts with it.
pub proof fn lemma_extends_prefix(
    old_list: Seq<u16>,
    new_list: Seq<u16>,
    added: spec_fn(u16) -> bool,
)
    requires
        extends(old_list, new_list, added),
    ensures
        old_list.len() <= new_list.len(),
        new_list.subrange(0, old_list.len() as int) == old_list,
{
    reveal(extends);
}

/// A normal move from `src` to a square of `dsts` that, with `pin_filter`,
/// keeps the piece on its pin line.
pub open spec fn normal_from(b: Board, src: int, dsts: u64, pin_filter: bool, mv: u16) -> bool {
    &&& is_normal(mv)
    &&& move_src(mv) == src
    &&& bb_has(dsts, move_dst(mv))
    &&& pin_filter ==> pin_ok(b, src, move_dst(mv))
}

/// A pawn move from `src` to a square of `dsts` that keeps the pawn on its
/// pin line, as a promotion where the square asks for one.
pub open spec fn pawn_from(b: Board, src: int, dsts: u64, mv: u16) -> bool {
    &&& move_src(mv) == src
    &&& bb_has(dsts, move_dst(mv))
    &&& pin_ok(b, src, move_dst(mv))
    &&& pawn_word_ok(b, mv)
}

/// One of the first `n` promotion moves from `src` to `dst`.
pub open spec fn promo_upto(src: int, dst: int, n: int, mv: u16) -> bool {
    &&& move_src(mv) == src
    &&& move_dst(mv) == dst
    &&& move_kind(mv) == MOVE_PROMO
    &&& move_promo(mv) < n
}

/// The legal move generator for one position: the position, what is worked
/// out of it once, and the list of moves.
pub struct MoveGen<'a> {
    position: Position,
    tables: &'a Tables,
    attacked: u64,
    occupancy: u64,
    our_pieces: u64,
    their_pieces: u64,
    our_pinned_pieces: u64,
    their_checkers: u64,
    /// The moves generated so far.
    pub moves: Vec<u16>,
}

/// What two bitboards say of an en passant capture by the pawn on `src`:
/// where `seen` holds the rooks and queens of the other side that reach the
/// king over the squares left occupied, and `seen_across` its bishops and
/// queens, the capture exposes the king exactly if one of them has a
/// member.
proof fn lemma_ep_exposure(b: Board, src: int, seen: u64, seen_across: u64)
    requires
        forall|q: int| #[trigger]
            bb_has(seen, q) == ((b.holds(q, Piece::Rook, b.side.other()) || b.holds(
                q,
                Piece::Queen,
                b.side.other(),
            )) && rook_reach(b.king_sq(b.side), occ_after_ep(b, src), q)),
        forall|q: int| #[trigger]
            bb_has(seen_across, q) == ((b.holds(q, Piece::Bishop, b.side.other()) || b.holds(
                q,
                Piece::Queen,
                b.side.other(),
            )) && bishop_reach(b.king_sq(b.side), occ_after_ep(b, src), q)),
    ensures
        ep_exposes_king(b, src) == (seen != 0 || seen_across != 0),
{
    if seen != 0 {
        lemma_nonzero(seen);
        let q = choose|q: int| bb_has(seen, q);
        assert(b.holds(q, Piece::Rook, b.side.other()) || b.holds(
            q,
            Piece::Queen,
            b.side.other(),
        ));
        assert(ep_opens_straight(b, src));
    }
    if seen_across != 0 {
        lemma_nonzero(seen_across);
        let q = choose|q: int| bb_has(seen_across, q);
        assert(b.holds(q, Piece::Bishop, b.side.other()) || b.holds(
            q,
            Piece::Queen,
            b.side.other(),
        ));
        assert(ep_opens_diagonal(b, src));
    }
    if ep_opens_straight(b, src) {
        let q = choose|q: int|
            (#[trigger] b.holds(q, Piece::Rook, b.side.other()) || b.holds(
                q,
                Piece::Queen,
                b.side.other(),
            )) && rook_reach(b.king_sq(b.side), occ_after_ep(b, src), q);
        assert(bb_has(seen, q));
    }
    if ep_opens_diagonal(b, src) {
        let q = choose|q: int|
            (#[trigger] b.holds(q, Piece::Bishop, b.side.other()) || b.holds(
                q,
                Piece::Queen,
                b.side.other(),
            )) && bishop_reach(b.king_sq(b.side), occ_after_ep(b, src), q);
        assert(bb_has(seen_across, q));
    }
}

impl<'a> MoveGen<'a> {
    /// The board that the generator works on.
    pub closed spec fn board(&self) -> Board {
        self.position@
    }

    /// The moves generated so far.
    pub closed spec fn list(&self) -> Seq<u16> {
        self.moves@
    }

    /// The generator holds a well-formed position with one king each and
    /// complete tables, and what it worked out of the position is right.
    pub closed spec fn wf(&self) -> bool {
        let b = self.position@;
        &&& self.position.wf()
        &&& self.tables.wf()
        &&& b.ready()
        &&& forall|t: int| bb_has(self.attacked, t) == b.attacked_by(b.side.other(), t)
        &&& self.occupancy == b.occ()
        &&& forall|s: int| bb_has(self.our_pieces, s) == b.owned(s, b.side)
        &&& forall|s: int| bb_has(self.their_pieces, s) == b.owned(s, b.side.other())
        &&& forall|s: int| bb_has(self.our_pinned_pieces, s) == b.pinned(s)
        &&& forall|s: int| bb_has(self.their_checkers, s) == b.checker(s)
    }

    /// Everything but the list of moves is the same in `self` and `other`.
    pub closed spec fn same_setup(&self, other: &MoveGen<'a>) -> bool {
        &&& self.position == other.position
        &&& self.tables == other.tables
        &&& self.attacked == other.attacked
        &&& self.occupancy == other.occupancy
        &&& self.our_pieces == other.our_pieces
        &&& self.their_pieces == other.their_pieces
        &&& self.our_pinned_pieces == other.our_pinned_pieces
        &&& self.their_checkers == other.their_checkers
    }

    /// A generator for `position`, with an empty list of moves.
    pub fn new(position: Position, tables: &'a Tables) -> (generator: MoveGen<'a>)
        requires
            position.wf(),
            tables.wf(),
            position@.ready(),
        ensures
            generator.wf(),
            generator.board() == position@,
            generator.list() == Seq::<u16>::empty(),
    {
        let enemy = position.enemy();
        MoveGen {
            position: position,
            tables: tables,
            attacked: all_attacks(tables.attack(), &position, enemy),
            occupancy: position.occupancy(),
            our_pieces: position.our_pieces(),
            their_pieces: position.their_pieces(),
            our_pinned_pieces: position.calc_pinned(tables),
            their_checkers: position.calc_checkers(tables),
            moves: Vec::with_capacity(256),
        }
    }

    /// Hands out the list of moves and gives up the generator.
    pub fn into_moves(self) -> (moves: Vec<u16>)
        ensures
            moves@ == self.list(),
    {
        self.moves
    }

    /// The king of the side to move, as a bitboard and as a square.
    fn king(&self) -> (king: (u64, u8))
        requires
            self.wf(),
        ensures
            king.1 == self.board().king_sq(self.board().side),
            king.1 < 64,
            forall|s: int| bb_has(king.0, s) == (s == king.1),
            self.board().holds(king.1 as int, Piece::King, self.board().side),
            king.0 != 0,
            lowest(king.0) == king.1,
    {
        let bb = self.position.our_king();
        let ghost b = self.position@;
        let ghost k = b.king_sq(b.side);
        proof {
            assert(b.holds(k, Piece::King, b.side));
            assert(bb_has(bb, k));
            lemma_lowest(bb);
            assert(b.holds(lowest(bb), Piece::King, b.side));
        }
        let sq = bb_lsb(bb);
        (bb, sq)
    }

    /// Whether the piece on `src_sq` may go to `dst_sq` as far as pins go: a
    /// pinned piece moves along the pin line only.
    fn passed_pin_check(&self, src_sq: u8, dst_sq: u8) -> (passed: bool)
        requires
            self.wf(),
            src_sq < 64,
            dst_sq < 64,
        ensures
            passed == pin_ok(self.board(), src_sq as int, dst_sq as int),
    {
        let pinned = bb_from_sq(src_sq) & self.our_pinned_pieces;
        proof {
            if pinned != 0 {
                lemma_nonzero(pinned);
            }
            if self.board().pinned(src_sq as int) {
                assert(bb_has(pinned, src_sq as int));
            }
        }
        if pinned != 0 {
            // A pinned piece may only move along the pin line.
            let (king, king_sq) = self.king();
            let on_ray = bb_ray(self.tables, src_sq, dst_sq) & king;
            proof {
                if on_ray != 0 {
                    lemma_nonzero(on_ray);
                }
                if on_line(src_sq as int, dst_sq as int, king_sq as int) {
                    assert(bb_has(on_ray, king_sq as int));
                }
            }
            return on_ray != 0;
        }
        true
    }

    /// Appends `mv` to the list of moves.
    fn emit(&mut self, mv: u16)
        requires
            old(self).wf(),
        ensures
            final(self).wf(),
            final(self).same_setup(old(self)),
            final(self).list() == old(self).list().push(mv),
    {
        self.moves.push(mv);
    }

    /// Appends the normal moves from `src_sq` to the squares of `dsts`,
    /// with `pin_filter` only those that pass the pin check.
    fn push_normal_moves(&mut self, src_sq: u8, dsts: u64, pin_filter: bool)
        requires
            old(self).wf(),
            src_sq < 64,
        ensures
            final(self).wf(),
            final(self).same_setup(old(self)),
            extends(
                old(self).list(),
                final(self).list(),
                |m: u16| normal_from(old(self).board(), src_sq as int, dsts, pin_filter, m),
            ),
    {
        let ghost b = self.board();
        let ghost start = self.list();
        let mut rest = dsts;
        proof {
            lemma_extends_none(
                start,
                |m: u16| normal_from(b, src_sq as int, dsts & !rest, pin_filter, m),
            );
        }
        while rest != 0
            invariant
                self.wf(),
                self.same_setup(old(self)),
                b == old(self).board(),
                start == old(self).list(),
                src_sq < 64,
                forall|s: int| bb_has(rest, s) ==> bb_has(dsts, s),
                extends(
                    start,
                    self.list(),
                    |m: u16| normal_from(b, src_sq as int, dsts & !rest, pin_filter, m),
                ),
            decreases popcount(rest),
        {
            let ghost before = rest;
            let ghost cur = self.list();
            let dst_sq = bb_pop(&mut rest);
            if !pin_filter || self.passed_pin_check(src_sq, dst_sq) {
                let mv = mv_create_normal(src_sq, dst_sq);
                self.emit(mv);
                proof {
                    lemma_move_fields(src_sq as int, dst_sq as int, 0, 0);
                    assert forall|m: u16| #[trigger]
                        normal_from(b, src_sq as int, dsts & !rest, pin_filter, m) == (normal_from(
                            b,
                            src_sq as int,
                            dsts & !before,
                            pin_filter,
                            m,
                        ) || m == mv) by {
                        lemma_move_word_of_fields(m);
                    }
                    lemma_extends_push(
                        start,
                        cur,
                        |m: u16| normal_from(b, src_sq as int, dsts & !before, pin_filter, m),
                        mv,
                        |m: u16| normal_from(b, src_sq as int, dsts & !rest, pin_filter, m),
                    );
                }
            } else {
                proof {
                    lemma_extends_same(
                        start,
                        cur,
                        |m: u16| normal_from(b, src_sq as int, dsts & !before, pin_filter, m),
                        |m: u16| normal_from(b, src_sq as int, dsts & !rest, pin_filter, m),
                    );
                }
            }
        }
        proof {
            lemma_extends_same(
                start,
                self.list(),
                |m: u16| normal_from(b, src_sq as int, dsts & !rest, pin_filter, m),
                |m: u16| normal_from(b, src_sq as int, dsts, pin_filter, m),
            );
        }
    }

    /// Appends the `n`th promotion move from `src_sq` to `dst_sq`.
    fn push_promo(
        &mut self,
        src_sq: u8,
        dst_sq: u8,
        piece: u8,
        Ghost(start): Ghost<Seq<u16>>,
        Ghost(added): Ghost<spec_fn(u16) -> bool>,
    )
        requires
            old(self).wf(),
            src_sq < 64,
            dst_sq < 64,
            1 <= piece <= 4,
            extends(
                start,
                old(self).list(),
                |m: u16| added(m) || promo_upto(src_sq as int, dst_sq as int, piece - 1, m),
            ),
            forall|m: u16|
                #[trigger] added(m) ==> !(move_src(m) == src_sq && move_dst(m) == dst_sq),
        ensures
            final(self).wf(),
            final(self).same_setup(old(self)),
            extends(
                start,
                final(self).list(),
                |m: u16| added(m) || promo_upto(src_sq as int, dst_sq as int, piece as int, m),
            ),
    {
        let ghost cur = self.list();
        let mv = mv_create_promo(src_sq, dst_sq, piece);
        self.emit(mv);
        proof {
            lemma_move_fields(src_sq as int, dst_sq as int, 1, piece - 1);
            let before = |m: u16|
                added(m) || promo_upto(src_sq as int, dst_sq as int, piece - 1, m);
            let after = |m: u16| added(m) || promo_upto(src_sq as int, dst_sq as int, piece as int, m);
            assert forall|m: u16| #[trigger] after(m) == (before(m) || m == mv) by {
                lemma_move_word_of_fields(m);
            }
            lemma_extends_push(start, cur, before, mv, after);
        }
    }

    /// Appends the pawn moves from `src_sq` to the squares of `dsts` that
    /// pass the pin check: the four promotions on the promotion rank, a
    /// normal move elsewhere.
    fn push_pawn_moves(&mut self, src_sq: u8, dsts: u64)
        requires
            old(self).wf(),
            src_sq < 64,
        ensures
            final(self).wf(),
            final(self).same_setup(old(self)),
            extends(
                old(self).list(),
                final(self).list(),
                |m: u16| pawn_from(old(self).board(), src_sq as int, dsts, m),
            ),
    {
        let ghost b = self.board();
        let ghost start = self.list();
        let us = self.position.us();
        let promotion_rank: u8 = if us == Color::White {
            PROMOTION_RANKS[0]
        } else {
            PROMOTION_RANKS[1]
        };
        let mut rest = dsts;
        proof {
            lemma_extends_none(start, |m: u16| pawn_from(b, src_sq as int, dsts & !rest, m));
        }
        while rest != 0
            invariant
                self.wf(),
                self.same_setup(old(self)),
                b == old(self).board(),
                us == b.side,
                promotion_rank == crate::rules::promotion_rank(us),
                start == old(self).list(),
                src_sq < 64,
                forall|s: int| bb_has(rest, s) ==> bb_has(dsts, s),
                extends(start, self.list(), |m: u16| pawn_from(b, src_sq as int, dsts & !rest, m)),
            decreases popcount(rest),
        {
            let ghost before = rest;
            let ghost cur = self.list();
            let dst_sq = bb_pop(&mut rest);
            let ghost done = |m: u16| pawn_from(b, src_sq as int, dsts & !before, m);
            if self.passed_pin_check(src_sq, dst_sq) {
                if rank_of(dst_sq) == promotion_rank {
                    proof {
                        lemma_extends_same(
                            start,
                            cur,
                            done,
                            |m: u16| done(m) || promo_upto(src_sq as int, dst_sq as int, 0, m),
                        );
                    }
                    self.push_promo(src_sq, dst_sq, 1, Ghost(start), Ghost(done));
                    self.push_promo(src_sq, dst_sq, 2, Ghost(start), Ghost(done));
                    self.push_promo(src_sq, dst_sq, 3, Ghost(start), Ghost(done));
                    self.push_promo(src_sq, dst_sq, 4, Ghost(start), Ghost(done));
                    proof {
                        assert forall|m: u16|
                            (#[trigger] done(m) || promo_upto(src_sq as int, dst_sq as int, 4, m))
                                == pawn_from(b, src_sq as int, dsts & !rest, m) by {
                            lemma_move_word_of_fields(m);
                        }
                        lemma_extends_same(
                            start,
                            self.list(),
                            |m: u16| done(m) || promo_upto(src_sq as int, dst_sq as int, 4, m),
                            |m: u16| pawn_from(b, src_sq as int, dsts & !rest, m),
                        );
                    }
                } else {
                    let mv = mv_create_normal(src_sq, dst_sq);
                    self.emit(mv);
                    proof {
                        lemma_move_fields(src_sq as int, dst_sq as int, 0, 0);
                        assert forall|m: u16| #[trigger]
                            pawn_from(b, src_sq as int, dsts & !rest, m) == (done(m) || m == mv) by {
                            lemma_move_word_of_fields(m);
                        }
                        lemma_extends_push(
                            start,
                            cur,
                            done,
                            mv,
                            |m: u16| pawn_from(b, src_sq as int, dsts & !rest, m),
                        );
                    }
                }
            } else {
                proof {
                    lemma_extends_same(
                        start,
                        cur,
                        done,
                        |m: u16| pawn_from(b, src_sq as int, dsts & !rest, m),
                    );
                }
            }
        }
        proof {
            lemma_extends_same(
                start,
                self.list(),
                |m: u16| pawn_from(b, src_sq as int, dsts & !rest, m),
                |m: u16| pawn_from(b, src_sq as int, dsts, m),
            );
        }
    }

    /// What a piece of kind `piece` on `src_sq` attacks.
    fn piece_attacks(&self, piece: Piece, src_sq: u8) -> (attacks: u64)
        requires
            self.wf(),
            src_sq < 64,
            piece == Piece::Knight || piece == Piece::Bishop || piece == Piece::Rook || piece
                == Piece::Queen,
        ensures
            forall|t: int| bb_has(attacks, t) == piece_reach(self.board(), piece, src_sq as int, t),
    {
        let tables = self.tables.attack();
        let src = bb_from_sq(src_sq);
        let attacks = match piece {
            Piece::Knight => knight_attacks_from(tables, src_sq),
            Piece::Bishop => bishop_attacks(tables, src, self.occupancy),
            Piece::Rook => rook_attacks(tables, src, self.occupancy),
            _ => queen_attacks(tables, src, self.occupancy),
        };
        proof {
            assert forall|t: int|
                bb_has(attacks, t) == piece_reach(self.board(), piece, src_sq as int, t) by {
                lemma_single_attacker(src_sq as int, src, self.occupancy, t);
            }
        }
        attacks
    }

    /// Appends the moves of the pieces of `pieces`, which are the pieces of
    /// kind `piece` of the side to move, knights without the pinned ones.
    fn gen_piece_moves(&mut self, piece: Piece, pieces: u64, targets: u64)
        requires
            old(self).wf(),
            piece == Piece::Knight || piece == Piece::Bishop || piece == Piece::Rook || piece
                == Piece::Queen,
            forall|s: int|
                bb_has(pieces, s) == (old(self).board().holds(s, piece, old(self).board().side) && (
                piece == Piece::Knight ==> !old(self).board().pinned(s))),
        ensures
            final(self).wf(),
            final(self).same_setup(old(self)),
            extends(
                old(self).list(),
                final(self).list(),
                |m: u16| piece_move(old(self).board(), piece, targets, m),
            ),
    {
        let ghost b = self.board();
        let ghost start = self.list();
        let free = targets & !self.our_pieces;
        let mut rest = pieces;
        proof {
            lemma_extends_none(
                start,
                |m: u16| piece_move(b, piece, targets, m) && bb_has(pieces & !rest, move_src(m)),
            );
        }
        while rest != 0
            invariant
                self.wf(),
                self.same_setup(old(self)),
                b == old(self).board(),
                start == old(self).list(),
                piece == Piece::Knight || piece == Piece::Bishop || piece == Piece::Rook || piece
                    == Piece::Queen,
                forall|s: int|
                    bb_has(pieces, s) == (b.holds(s, piece, b.side) && (piece == Piece::Knight
                        ==> !b.pinned(s))),
                forall|s: int| bb_has(free, s) == (bb_has(targets, s) && !b.owned(s, b.side)),
                forall|s: int| bb_has(rest, s) ==> bb_has(pieces, s),
                extends(
                    start,
                    self.list(),
                    |m: u16|
                        piece_move(b, piece, targets, m) && bb_has(pieces & !rest, move_src(m)),
                ),
            decreases popcount(rest),
        {
            let ghost before = rest;
            let ghost cur = self.list();
            let src_sq = bb_pop(&mut rest);
            let attacks = self.piece_attacks(piece, src_sq) & free;
            self.push_normal_moves(src_sq, attacks, piece != Piece::Knight);
            proof {
                let first = |m: u16|
                    piece_move(b, piece, targets, m) && bb_has(pieces & !before, move_src(m));
                let second = |m: u16|
                    normal_from(b, src_sq as int, attacks, piece != Piece::Knight, m);
                let both = |m: u16|
                    piece_move(b, piece, targets, m) && bb_has(pieces & !rest, move_src(m));
                assert forall|m: u16| #[trigger] both(m) == (first(m) || second(m)) by {
                    lemma_move_word_of_fields(m);
                }
                lemma_extends_then(start, cur, self.list(), first, second, both);
            }
        }
        proof {
            lemma_extends_same(
                start,
                self.list(),
                |m: u16| piece_move(b, piece, targets, m) && bb_has(pieces & !rest, move_src(m)),
                |m: u16| piece_move(b, piece, targets, m),
            );
        }
    }

    /// Appends the knight moves to target squares.
    fn gen_knight_moves(&mut self, targets: u64)
        requires
            old(self).wf(),
        ensures
            final(self).wf(),
            final(self).same_setup(old(self)),
            extends(
                old(self).list(),
                final(self).list(),
                |m: u16| piece_move(old(self).board(), Piece::Knight, targets, m),
            ),
    {
        // A pinned knight cannot stay on the pin line, so it has no move.
        let knights = self.position.our_knights() & !self.our_pinned_pieces;
        self.gen_piece_moves(Piece::Knight, knights, targets);
    }

    /// Appends the bishop moves to target squares.
    fn gen_bishop_moves(&mut self, targets: u64)
        requires
            old(self).wf(),
        ensures
            final(self).wf(),
            final(self).same_setup(old(self)),
            extends(
                old(self).list(),
                final(self).list(),
                |m: u16| piece_move(old(self).board(), Piece::Bishop, targets, m),
            ),
    {
        let bishops = self.position.our_bishops();
        self.gen_piece_moves(Piece::Bishop, bishops, targets);
    }

    /// Appends the rook moves to target squares.
    fn gen_rook_moves(&mut self, targets: u64)
        requires
            old(self).wf(),
        ensures
            final(self).wf(),
            final(self).same_setup(old(self)),
            extends(
                old(self).list(),
                final(self).list(),
                |m: u16| piece_move(old(self).board(), Piece::Rook, targets, m),
            ),
    {
        let rooks = self.position.our_rooks();
        self.gen_piece_moves(Piece::Rook, rooks, targets);
    }

    /// Appends the queen moves to target squares.
    fn gen_queen_moves(&mut self, targets: u64)
        requires
            old(self).wf(),
        ensures
            final(self).wf(),
            final(self).same_setup(old(self)),
            extends(
                old(self).list(),
                final(self).list(),
                |m: u16| piece_move(old(self).board(), Piece::Queen, targets, m),
            ),
    {
        let queens = self.position.our_queens();
        self.gen_piece_moves(Piece::Queen, queens, targets);
    }

    /// Appends the king moves to target squares that are not attacked.
    fn gen_king_moves(&mut self, targets: u64)
        requires
            old(self).wf(),
        ensures
            final(self).wf(),
            final(self).same_setup(old(self)),
            extends(
                old(self).list(),
                final(self).list(),
                |m: u16| king_move(old(self).board(), targets, m),
            ),
    {
        let ghost b = self.board();
        let ghost start = self.list();
        let (king, king_sq) = self.king();
        let mut attacks = king_attacks(self.tables.attack(), king);
        attacks &= targets;
        attacks &= !self.our_pieces;
        attacks &= !self.attacked;
        self.push_normal_moves(king_sq, attacks, false);
        proof {
            assert forall|m: u16| #[trigger]
                normal_from(b, king_sq as int, attacks, false, m) == king_move(b, targets, m) by {
                lemma_move_word_of_fields(m);
            }
            lemma_extends_same(
                start,
                self.list(),
                |m: u16| normal_from(b, king_sq as int, attacks, false, m),
                |m: u16| king_move(b, targets, m),
            );
        }
    }

    /// Appends the pawn advances to target squares.
    fn gen_pawn_advances(&mut self, targets: u64)
        requires
            old(self).wf(),
        ensures
            final(self).wf(),
            final(self).same_setup(old(self)),
            extends(
                old(self).list(),
                final(self).list(),
                |m: u16| pawn_push(old(self).board(), targets, m),
            ),
    {
        let ghost b = self.board();
        let ghost start = self.list();
        let pawns = self.position.our_pawns();
        let us = self.position.us();
        let mut rest = pawns;
        proof {
            lemma_extends_none(
                start,
                |m: u16| pawn_push(b, targets, m) && bb_has(pawns & !rest, move_src(m)),
            );
        }
        while rest != 0
            invariant
                self.wf(),
                self.same_setup(old(self)),
                b == old(self).board(),
                us == b.side,
                start == old(self).list(),
                forall|s: int| bb_has(pawns, s) == b.holds(s, Piece::Pawn, b.side),
                forall|s: int| bb_has(rest, s) ==> bb_has(pawns, s),
                extends(
                    start,
                    self.list(),
                    |m: u16| pawn_push(b, targets, m) && bb_has(pawns & !rest, move_src(m)),
                ),
            decreases popcount(rest),
        {
            let ghost before = rest;
            let ghost cur = self.list();
            let src_sq = bb_pop(&mut rest);
            let pawn = bb_from_sq(src_sq);
            let advances = targets & pawn_advances(pawn, self.occupancy, us);
            self.push_pawn_moves(src_sq, advances);
            proof {
                let first = |m: u16|
                    pawn_push(b, targets, m) && bb_has(pawns & !before, move_src(m));
                let second = |m: u16| pawn_from(b, src_sq as int, advances, m);
                let both = |m: u16| pawn_push(b, targets, m) && bb_has(pawns & !rest, move_src(m));
                assert forall|m: u16| #[trigger] both(m) == (first(m) || second(m)) by {
                    lemma_move_word_of_fields(m);
                    lemma_push_reach(b, src_sq as int, pawn, move_dst(m));
                }
                lemma_extends_then(start, cur, self.list(), first, second, both);
            }
        }
        proof {
            lemma_extends_same(
                start,
                self.list(),
                |m: u16| pawn_push(b, targets, m) && bb_has(pawns & !rest, move_src(m)),
                |m: u16| pawn_push(b, targets, m),
            );
        }
    }

    /// Appends the pawn captures on target squares; en passant captures
    /// are dealt with apart.
    fn gen_plain_pawn_captures(&mut self, targets: u64)
        requires
            old(self).wf(),
        ensures
            final(self).wf(),
            final(self).same_setup(old(self)),
            extends(
                old(self).list(),
                final(self).list(),
                |m: u16| pawn_capture(old(self).board(), targets, m),
            ),
    {
        let ghost b = self.board();
        let ghost start = self.list();
        let pawns = self.position.our_pawns();
        let us = self.position.us();
        let mut rest = pawns;
        proof {
            lemma_extends_none(
                start,
                |m: u16| pawn_capture(b, targets, m) && bb_has(pawns & !rest, move_src(m)),
            );
        }
        while rest != 0
            invariant
                self.wf(),
                self.same_setup(old(self)),
                b == old(self).board(),
                us == b.side,
                start == old(self).list(),
                forall|s: int| bb_has(pawns, s) == b.holds(s, Piece::Pawn, b.side),
                forall|s: int| bb_has(rest, s) ==> bb_has(pawns, s),
                extends(
                    start,
                    self.list(),
                    |m: u16| pawn_capture(b, targets, m) && bb_has(pawns & !rest, move_src(m)),
                ),
            decreases popcount(rest),
        {
            let ghost before = rest;
            let ghost cur = self.list();
            let src_sq = bb_pop(&mut rest);
            let pawn = bb_from_sq(src_sq);
            let mut attacks = pawn_attacks(pawn, us);
            attacks &= targets;
            attacks &= self.their_pieces;
            self.push_pawn_moves(src_sq, attacks);
            proof {
                let first = |m: u16|
                    pawn_capture(b, targets, m) && bb_has(pawns & !before, move_src(m));
                let second = |m: u16| pawn_from(b, src_sq as int, attacks, m);
                let both = |m: u16|
                    pawn_capture(b, targets, m) && bb_has(pawns & !rest, move_src(m));
                assert forall|m: u16| #[trigger] both(m) == (first(m) || second(m)) by {
                    lemma_move_word_of_fields(m);
                    let t = move_dst(m);
                    assert(pawns_attack(pawn, us, t) == pawn_reach(src_sq as int, us, t)) by {
                        if pawn_reach(src_sq as int, us, t) {
                            assert(bb_has(pawn, src_sq as int) && pawn_reach(src_sq as int, us, t));
                        }
                    }
                }
                lemma_extends_then(start, cur, self.list(), first, second, both);
            }
        }
        proof {
            lemma_extends_same(
                start,
                self.list(),
                |m: u16| pawn_capture(b, targets, m) && bb_has(pawns & !rest, move_src(m)),
                |m: u16| pawn_capture(b, targets, m),
            );
        }
    }

    /// Whether the pawn on `src_sq` may capture en passant.
    fn ep_allowed(&self, src_sq: u8) -> (allowed: bool)
        requires
            self.wf(),
            src_sq < 64,
            self.board().ep != NO_SQUARE,
        ensures
            allowed == {
                let b = self.board();
                &&& pawn_reach(src_sq as int, b.side, b.ep as int)
                &&& !ep_exposes_king(b, src_sq as int)
                &&& pin_ok(b, src_sq as int, b.ep as int)
            },
    {
        let ghost b = self.board();
        let us = self.position.us();
        let ep_sq = self.position.ep_square();
        let dst_sq = ep_sq;
        let ep_bb = bb_from_sq(ep_sq);
        let pawn = bb_from_sq(src_sq);
        let reach = pawn_attacks(pawn, us) & ep_bb;
        proof {
            assert(pawns_attack(pawn, us, ep_sq as int) == pawn_reach(
                src_sq as int,
                us,
                ep_sq as int,
            )) by {
                if pawn_reach(src_sq as int, us, ep_sq as int) {
                    assert(bb_has(pawn, src_sq as int) && pawn_reach(
                        src_sq as int,
                        us,
                        ep_sq as int,
                    ));
                }
            }
            if reach != 0 {
                lemma_nonzero(reach);
            }
            if pawn_reach(src_sq as int, us, ep_sq as int) {
                assert(bb_has(reach, ep_sq as int));
            }
        }
        if reach == 0 {
            return false;
        }
        let captured = if us == Color::White {
            bb_south(ep_bb)
        } else {
            bb_north(ep_bb)
        };
        // A pawn that is pinned along the line of the capture stays on
        // that line, so the pin does not forbid the capture.
        let passed = self.passed_pin_check(src_sq, dst_sq);
        // With both pawns gone from their squares, a rook or queen may
        // attack the king along the rank, a bishop or queen along a
        // diagonal.
        let (king, king_sq) = self.king();
        let their_straights = self.position.their_rooks() | self.position.their_queens();
        let their_diagonals = self.position.their_bishops() | self.position.their_queens();
        let occ = (ep_bb | self.occupancy) & !bb_from_sq(src_sq) & !captured;
        let along = rook_attacks(self.tables.attack(), king, occ);
        let seen = along & their_straights;
        let across = bishop_attacks(self.tables.attack(), king, occ);
        let seen_across = across & their_diagonals;
        proof {
            lemma_occ_after_ep(b, src_sq as int);
            assert forall|s: int| 0 <= s < 64 implies bb_has(occ, s) == bb_has(
                occ_after_ep(b, src_sq as int),
                s,
            ) by {}
            lemma_ext(occ, occ_after_ep(b, src_sq as int));
            assert forall|q: int| #[trigger]
                bb_has(seen, q) == ((b.holds(q, Piece::Rook, b.side.other()) || b.holds(
                    q,
                    Piece::Queen,
                    b.side.other(),
                )) && rook_reach(b.king_sq(b.side), occ_after_ep(b, src_sq as int), q)) by {
                lemma_single_attacker(king_sq as int, king, occ, q);
            }
            assert forall|q: int| #[trigger]
                bb_has(seen_across, q) == ((b.holds(q, Piece::Bishop, b.side.other()) || b.holds(
                    q,
                    Piece::Queen,
                    b.side.other(),
                )) && bishop_reach(b.king_sq(b.side), occ_after_ep(b, src_sq as int), q)) by {
                lemma_single_attacker(king_sq as int, king, occ, q);
            }
            lemma_ep_exposure(b, src_sq as int, seen, seen_across);
        }
        seen == 0 && seen_across == 0 && passed
    }

    /// Appends the en passant captures that reach a target square: those
    /// whose destination or whose captured pawn stands on one.
    fn gen_ep_captures(&mut self, targets: u64)
        requires
            old(self).wf(),
        ensures
            final(self).wf(),
            final(self).same_setup(old(self)),
            extends(
                old(self).list(),
                final(self).list(),
                |m: u16| ep_capture(old(self).board(), targets, m),
            ),
    {
        let ghost b = self.board();
        let ghost start = self.list();
        let ep_sq = self.position.ep_square();
        if ep_sq == NO_SQUARE {
            proof {
                lemma_extends_none(start, |m: u16| ep_capture(b, targets, m));
            }
            return;
        }
        let ep_bb = bb_from_sq(ep_sq);
        let captured = if self.position.us() == Color::White {
            bb_south(ep_bb)
        } else {
            bb_north(ep_bb)
        };
        if targets & (ep_bb | captured) == 0 {
            proof {
                assert forall|m: u16| !ep_capture(b, targets, m) by {
                    let victim = behind(ep_sq as int, b.side);
                    if bb_has(targets, ep_sq as int) {
                        assert(bb_has(targets & (ep_bb | captured), ep_sq as int));
                    }
                    if bb_has(targets, victim) {
                        assert(bb_has(captured, victim));
                        assert(bb_has(targets & (ep_bb | captured), victim));
                    }
                }
                lemma_extends_none(start, |m: u16| ep_capture(b, targets, m));
            }
            return;
        }
        proof {
            lemma_nonzero(targets & (ep_bb | captured));
            let t = choose|t: int| bb_has(targets & (ep_bb | captured), t);
            assert(t == ep_sq || t == behind(ep_sq as int, b.side));
            assert(bb_has(targets, ep_sq as int) || bb_has(
                targets,
                behind(ep_sq as int, b.side),
            ));
        }
        let ep_file_bb = FILE_BITBOARDS[file_of(ep_sq) as usize];
        let pawns = self.position.our_pawns() & (bb_east(ep_file_bb) | bb_west(ep_file_bb));
        let us = self.position.us();
        proof {
            assert forall|s: int|
                bb_has(pawns, s) == (b.holds(s, Piece::Pawn, b.side) && (file(s) == file(
                    ep_sq as int,
                ) + 1 || file(s) == file(ep_sq as int) - 1)) by {
                lemma_file_mask(file(ep_sq as int), s - 1);
                lemma_file_mask(file(ep_sq as int), s + 1);
                lemma_file_up(s);
            }
        }
        let mut rest = pawns;
        proof {
            lemma_extends_none(
                start,
                |m: u16| ep_capture(b, targets, m) && bb_has(pawns & !rest, move_src(m)),
            );
        }
        while rest != 0
            invariant
                self.wf(),
                self.same_setup(old(self)),
                b == old(self).board(),
                us == b.side,
                start == old(self).list(),
                ep_sq == b.ep,
                ep_sq < 64,
                forall|s: int| bb_has(pawns, s) ==> b.holds(s, Piece::Pawn, b.side),
                forall|s: int| bb_has(rest, s) ==> bb_has(pawns, s),
                bb_has(targets, ep_sq as int) || bb_has(targets, behind(ep_sq as int, b.side)),
                extends(
                    start,
                    self.list(),
                    |m: u16| ep_capture(b, targets, m) && bb_has(pawns & !rest, move_src(m)),
                ),
            decreases popcount(rest),
        {
            let ghost before = rest;
            let ghost cur = self.list();
            let src_sq = bb_pop(&mut rest);
            let dst_sq = ep_sq;
            let ghost done = |m: u16|
                ep_capture(b, targets, m) && bb_has(pawns & !before, move_src(m));
            let ghost after = |m: u16|
                ep_capture(b, targets, m) && bb_has(pawns & !rest, move_src(m));
            if self.ep_allowed(src_sq) {
                let mv = mv_create_ep(src_sq, dst_sq);
                self.emit(mv);
                proof {
                    lemma_move_fields(src_sq as int, dst_sq as int, 2, 0);
                    assert forall|m: u16| #[trigger] after(m) == (done(m) || m == mv) by {
                        lemma_move_word_of_fields(m);
                    }
                    lemma_extends_push(start, cur, done, mv, after);
                }
            } else {
                proof {
                    lemma_extends_same(start, cur, done, after);
                }
            }
        }
        proof {
            assert forall|m: u16|
                (#[trigger] ep_capture(b, targets, m) && bb_has(pawns & !rest, move_src(m))) == ep_capture(
                    b,
                    targets,
                    m,
                ) by {
                if ep_capture(b, targets, m) {
                    lemma_square(move_src(m));
                    lemma_square(ep_sq as int);
                }
            }
            lemma_extends_same(
                start,
                self.list(),
                |m: u16| ep_capture(b, targets, m) && bb_has(pawns & !rest, move_src(m)),
                |m: u16| ep_capture(b, targets, m),
            );
        }
    }

    /// Appends the pawn captures on target squares, and the en passant
    /// captures that reach one.
    fn gen_pawn_captures(&mut self, targets: u64)
        requires
            old(self).wf(),
        ensures
            final(self).wf(),
            final(self).same_setup(old(self)),
            extends(
                old(self).list(),
                final(self).list(),
                |m: u16|
                    pawn_capture(old(self).board(), targets, m) || ep_capture(old(self).board(), targets, m),
            ),
            ordered_from(
                old(self).board(),
                final(self).list(),
                old(self).list().len() as int,
                1,
                2,
            ),
    {
        let ghost b = self.board();
        let ghost start = self.list();
        self.gen_plain_pawn_captures(targets);
        let ghost mid = self.list();
        self.gen_ep_captures(targets);
        proof {
            assert forall|m: u16|
                (#[trigger] pawn_capture(b, targets, m) ==> move_order(b, m) == 1) && (ep_capture(
                    b,
                    targets,
                    m,
                ) ==> move_order(b, m) == 2) by {
                lemma_move_order(b, targets, m);
            }
            lemma_ordered_single(b, start, mid, |m: u16| pawn_capture(b, targets, m), 1);
            lemma_ordered_single(b, mid, self.list(), |m: u16| ep_capture(b, targets, m), 2);
            lemma_extends_prefix(start, mid, |m: u16| pawn_capture(b, targets, m));
            lemma_extends_prefix(mid, self.list(), |m: u16| ep_capture(b, targets, m));
            lemma_ordered_join(b, mid, self.list(), start.len() as int, 1, 1, 2);
            assert forall|m: u16| !(pawn_capture(b, targets, m) && ep_capture(b, targets, m)) by {
                lemma_rules_exclusive(b, targets, targets, m);
            }
            lemma_extends_then(
                start,
                mid,
                self.list(),
                |m: u16| pawn_capture(b, targets, m),
                |m: u16| ep_capture(b, targets, m),
                |m: u16| pawn_capture(b, targets, m) || ep_capture(b, targets, m),
            );
        }
    }

    /// Appends the pawn advances to and captures on target squares, and the en
    /// passant captures that reach one.
    fn gen_pawn_moves(&mut self, targets: u64)
        requires
            old(self).wf(),
        ensures
            final(self).wf(),
            final(self).same_setup(old(self)),
            extends(
                old(self).list(),
                final(self).list(),
                |m: u16|
                    pawn_push(old(self).board(), targets, m) || pawn_capture(
                        old(self).board(),
                        targets,
                        m,
                    ) || ep_capture(old(self).board(), targets, m),
            ),
            ordered_from(
                old(self).board(),
                final(self).list(),
                old(self).list().len() as int,
                0,
                2,
            ),
    {
        let ghost b = self.board();
        let ghost start = self.list();
        self.gen_pawn_advances(targets);
        let ghost mid = self.list();
        self.gen_pawn_captures(targets);
        proof {
            assert forall|m: u16| #[trigger] pawn_push(b, targets, m) implies move_order(b, m)
                == 0 by {
                lemma_move_order(b, targets, m);
            }
            lemma_ordered_single(b, start, mid, |m: u16| pawn_push(b, targets, m), 0);
            lemma_extends_prefix(start, mid, |m: u16| pawn_push(b, targets, m));
            lemma_extends_prefix(
                mid,
                self.list(),
                |m: u16| pawn_capture(b, targets, m) || ep_capture(b, targets, m),
            );
            lemma_ordered_join(b, mid, self.list(), start.len() as int, 0, 0, 2);
            assert forall|m: u16|
                !(pawn_push(b, targets, m) && (pawn_capture(b, targets, m) || ep_capture(
                    b,
                    targets,
                    m,
                ))) by {
                lemma_rules_exclusive(b, targets, targets, m);
            }
            lemma_extends_then(
                start,
                mid,
                self.list(),
                |m: u16| pawn_push(b, targets, m),
                |m: u16| pawn_capture(b, targets, m) || ep_capture(b, targets, m),
                |m: u16|
                    pawn_push(b, targets, m) || pawn_capture(b, targets, m) || ep_capture(b, targets, m),
            );
        }
    }

    /// Appends the castling move of `color` to one side if `color` is to
    /// move and that castling is open.
    fn gen_castle(&mut self, color: Color, short: bool)
        requires
            old(self).wf(),
            color != Color::NoColor,
        ensures
            final(self).wf(),
            final(self).same_setup(old(self)),
            extends(
                old(self).list(),
                final(self).list(),
                |m: u16| castle_side(old(self).board(), color, short, m),
            ),
    {
        let ghost b = self.board();
        let ghost start = self.list();
        let rights = self.position.castle_rights();
        let us = self.position.us();
        let right = if color == Color::White {
            if short {
                WHITE_OO
            } else {
                WHITE_OOO
            }
        } else {
            if short {
                BLACK_OO
            } else {
                BLACK_OOO
            }
        };
        let mut open = false;
        let (king, src_sq) = self.king();
        let rank: u8 = if color == Color::White {
            0
        } else {
            7
        };
        let dst_sq = make_sq(
            rank,
            if short {
                6
            } else {
                2
            },
        );
        if us == color && rights & right != 0 {
            let home = RANK_BITBOARDS[rank as usize];
            let need_empty = if short {
                home & (FILE_BITBOARDS[5] | FILE_BITBOARDS[6])
            } else {
                home & (FILE_BITBOARDS[1] | FILE_BITBOARDS[2] | FILE_BITBOARDS[3])
            };
            let passed = if short {
                home & (FILE_BITBOARDS[5] | FILE_BITBOARDS[6])
            } else {
                home & (FILE_BITBOARDS[2] | FILE_BITBOARDS[3])
            };
            let need_unattacked = king | passed;
            let blocked = self.occupancy & need_empty;
            let seen = need_unattacked & self.attacked;
            proof {
                let base = 8 * rank as int;
                lemma_bb_of(|s: int| b.occupied(s));
                assert forall|s: int|
                    bb_has(need_empty, s) == (if short {
                        s == base + 5 || s == base + 6
                    } else {
                        s == base + 1 || s == base + 2 || s == base + 3
                    }) by {
                    lemma_rank_mask(rank as int, s);
                    lemma_file_mask(1, s);
                    lemma_file_mask(2, s);
                    lemma_file_mask(3, s);
                    lemma_file_mask(5, s);
                    lemma_file_mask(6, s);
                }
                assert forall|s: int|
                    bb_has(passed, s) == (if short {
                        s == base + 5 || s == base + 6
                    } else {
                        s == base + 2 || s == base + 3
                    }) by {
                    lemma_rank_mask(rank as int, s);
                    lemma_file_mask(2, s);
                    lemma_file_mask(3, s);
                    lemma_file_mask(5, s);
                    lemma_file_mask(6, s);
                }
                if blocked != 0 {
                    lemma_nonzero(blocked);
                }
                if seen != 0 {
                    lemma_nonzero(seen);
                }
                if blocked == 0 {
                    assert(forall|s: int| !bb_has(blocked, s));
                }
                if seen == 0 {
                    assert(forall|s: int| !bb_has(seen, s));
                }
                assert((blocked == 0 && seen == 0) == castle_open(b, short)) by {
                    if blocked == 0 && seen == 0 {
                        assert(!bb_has(seen, src_sq as int));
                        if short {
                            assert(!bb_has(blocked, base + 5) && !bb_has(blocked, base + 6));
                            assert(!bb_has(seen, base + 5) && !bb_has(seen, base + 6));
                        } else {
                            assert(!bb_has(blocked, base + 1) && !bb_has(blocked, base + 2)
                                && !bb_has(blocked, base + 3));
                            assert(!bb_has(seen, base + 2) && !bb_has(seen, base + 3));
                        }
                    }
                }
            }
            open = blocked == 0 && seen == 0;
        }
        if open {
            let mv = mv_create_castle(src_sq, dst_sq);
            let ghost cur = self.list();
            self.emit(mv);
            proof {
                lemma_move_fields(src_sq as int, dst_sq as int, 3, 0);
                lemma_extends_none(start, |m: u16| false);
                assert forall|m: u16| #[trigger]
                    castle_side(b, color, short, m) == (false || m == mv) by {
                    lemma_move_word_of_fields(m);
                }
                lemma_extends_push(
                    start,
                    cur,
                    |m: u16| false,
                    mv,
                    |m: u16| castle_side(b, color, short, m),
                );
            }
        } else {
            proof {
                lemma_extends_none(start, |m: u16| castle_side(b, color, short, m));
            }
        }
    }

    /// Appends the castling moves that are open.
    fn gen_castling_moves(&mut self)
        requires
            old(self).wf(),
        ensures
            final(self).wf(),
            final(self).same_setup(old(self)),
            extends(
                old(self).list(),
                final(self).list(),
                |m: u16| castle_move(old(self).board(), m),
            ),
    {
        let ghost b = self.board();
        let ghost l0 = self.list();
        self.gen_castle(Color::White, true);
        let ghost l1 = self.list();
        self.gen_castle(Color::White, false);
        let ghost l2 = self.list();
        self.gen_castle(Color::Black, true);
        let ghost l3 = self.list();
        self.gen_castle(Color::Black, false);
        proof {
            let w = |m: u16|
                castle_side(b, Color::White, true, m) || castle_side(b, Color::White, false, m);
            let wb = |m: u16| w(m) || castle_side(b, Color::Black, true, m);
            lemma_extends_then(
                l0,
                l1,
                l2,
                |m: u16| castle_side(b, Color::White, true, m),
                |m: u16| castle_side(b, Color::White, false, m),
                w,
            );
            lemma_extends_then(l0, l2, l3, w, |m: u16| castle_side(b, Color::Black, true, m), wb);
            lemma_extends_then(
                l0,
                l3,
                self.list(),
                wb,
                |m: u16| castle_side(b, Color::Black, false, m),
                |m: u16| castle_move(b, m),
            );
        }
    }

    /// The squares on the lines of sliding checks, the checking pieces'
    /// own squares apart: a king that steps back along such a line stays in
    /// check.
    fn check_lines(&self, king_sq: u8) -> (rays: u64)
        requires
            self.wf(),
            king_sq == self.board().king_sq(self.board().side),
            king_sq < 64,
        ensures
            forall|t: int| bb_has(rays, t) == on_check_line(self.board(), t),
    {
        let ghost b = self.board();
        let sliders = self.their_checkers & (self.position.their_bishops()
            | self.position.their_queens() | self.position.their_rooks());
        let mut rays: u64 = 0;
        let mut rest = sliders;
        proof {
            assert forall|c: int| bb_has(sliders, c) == slider_checker(b, c) by {}
        }
        while rest != 0
            invariant
                self.wf(),
                b == self.board(),
                king_sq == b.king_sq(b.side),
                king_sq < 64,
                forall|c: int| bb_has(sliders, c) == slider_checker(b, c),
                forall|c: int| bb_has(rest, c) ==> bb_has(sliders, c),
                forall|t: int|
                    bb_has(rays, t) == exists|c: int| #[trigger]
                        bb_has(sliders & !rest, c) && on_line(king_sq as int, c, t) && t != c,
            decreases popcount(rest),
        {
            let ghost before = rest;
            let ghost rays_before = rays;
            let sq = bb_pop(&mut rest);
            let line = bb_ray(self.tables, king_sq, sq) ^ bb_from_sq(sq);
            rays = rays | line;
            proof {
                assert forall|t: int|
                    bb_has(rays, t) == exists|c: int| #[trigger]
                        bb_has(sliders & !rest, c) && on_line(king_sq as int, c, t) && t != c by {
                    if bb_has(rays_before, t) {
                        let c = choose|c: int| #[trigger]
                            bb_has(sliders & !before, c) && on_line(king_sq as int, c, t) && t
                                != c;
                        assert(bb_has(sliders & !rest, c));
                    }
                    if bb_has(line, t) {
                        assert(bb_has(sliders & !rest, sq as int));
                    }
                    if exists|c: int| #[trigger]
                        bb_has(sliders & !rest, c) && on_line(king_sq as int, c, t) && t != c {
                        let c = choose|c: int| #[trigger]
                            bb_has(sliders & !rest, c) && on_line(king_sq as int, c, t) && t != c;
                        if c != sq {
                            assert(bb_has(sliders & !before, c));
                        }
                    }
                }
            }
        }
        proof {
            assert forall|t: int| bb_has(rays, t) == on_check_line(b, t) by {
                if bb_has(rays, t) {
                    let c = choose|c: int| #[trigger]
                        bb_has(sliders & !rest, c) && on_line(king_sq as int, c, t) && t != c;
                    assert(slider_checker(b, c));
                }
                if on_check_line(b, t) {
                    let c = choose|c: int| #[trigger]
                        slider_checker(b, c) && on_line(b.king_sq(b.side), c, t) && t != c;
                    assert(bb_has(sliders & !rest, c));
                }
            }
        }
        rays
    }

    /// Appends the moves that answer a check: king moves off the attacked
    /// squares and the lines of sliding checks, and against a single check the
    /// moves that capture the checking piece or block its line.
    fn gen_get_out_of_check_moves(&mut self)
        requires
            old(self).wf(),
            old(self).board().in_check(old(self).board().side),
        ensures
            final(self).wf(),
            final(self).same_setup(old(self)),
            extends(
                old(self).list(),
                final(self).list(),
                |m: u16| evasion_move(old(self).board(), m),
            ),
            ordered_from(
                old(self).board(),
                final(self).list(),
                old(self).list().len() as int,
                -1,
                6,
            ),
    {
        let ghost b = self.board();
        let ghost l0 = self.list();
        let checkers = self.their_checkers;
        let (king, king_sq) = self.king();
        let slider_attack_rays = self.check_lines(king_sq);
        let king_targets = !(self.attacked | slider_attack_rays);
        proof {
            lemma_bb_of(|t: int| !b.attacked_by(b.side.other(), t) && !on_check_line(b, t));
            assert forall|t: int| 0 <= t < 64 implies bb_has(king_targets, t) == bb_has(
                king_escape_squares(b),
                t,
            ) by {}
            lemma_ext(king_targets, king_escape_squares(b));
        }
        self.gen_king_moves(king_targets);
        let ghost l1 = self.list();
        let ghost escape = |m: u16| king_move(b, king_escape_squares(b), m);
        proof {
            assert forall|m: u16| #[trigger] escape(m) implies move_order(b, m) == -1 by {
                lemma_move_order(b, king_escape_squares(b), m);
            }
            lemma_ordered_single(b, l0, l1, escape, -1);
            lemma_extends_prefix(l0, l1, escape);
            lemma_popcount_one(checkers);
            lemma_lowest(checkers);
            if single_check(b) {
                let c = choose|c: int| #[trigger]
                    b.checker(c) && forall|d: int| b.checker(d) ==> d == c;
                assert(bb_has(checkers, c));
                assert(b.checker(lowest(checkers)));
                assert forall|s: int| bb_has(checkers, s) implies s == lowest(checkers) by {
                    assert(b.checker(s));
                }
            }
            if popcount(checkers) == 1 {
                let c = lowest(checkers);
                assert(b.checker(c) && forall|d: int| b.checker(d) ==> d == c) by {
                    assert forall|d: int| b.checker(d) implies d == c by {
                        assert(bb_has(checkers, d));
                    }
                }
            }
            assert(single_check(b) == (popcount(checkers) == 1));
        }
        if bb_popcnt(checkers) == 1 {
            // One piece gives check: it can be captured, or its line to
            // the king blocked.
            let checker_sq = bb_lsb(checkers);
            let attack_ray = bb_between(self.tables, checker_sq, king_sq);
            let targets = checkers | attack_ray;
            proof {
                assert(b.checker(checker_sq as int));
                assert(the_checker(b) == checker_sq) by {
                    assert(bb_has(checkers, the_checker(b)));
                }
                lemma_bb_of(
                    |t: int|
                        t == the_checker(b) || between(the_checker(b), b.king_sq(b.side), t),
                );
                assert forall|t: int| 0 <= t < 64 implies bb_has(targets, t) == bb_has(
                    block_squares(b),
                    t,
                ) by {}
                lemma_ext(targets, block_squares(b));
            }
            self.gen_pawn_moves(targets);
            let ghost l2 = self.list();
            self.gen_knight_moves(targets);
            let ghost l3 = self.list();
            self.gen_bishop_moves(targets);
            let ghost l4 = self.list();
            self.gen_rook_moves(targets);
            let ghost l5 = self.list();
            self.gen_queen_moves(targets);
            proof {
                let pawn = |m: u16|
                    pawn_push(b, targets, m) || pawn_capture(b, targets, m) || ep_capture(
                        b,
                        targets,
                        m,
                    );
                let knight = |m: u16| piece_move(b, Piece::Knight, targets, m);
                let bishop = |m: u16| piece_move(b, Piece::Bishop, targets, m);
                let rook = |m: u16| piece_move(b, Piece::Rook, targets, m);
                let queen = |m: u16| piece_move(b, Piece::Queen, targets, m);
                let a1 = |m: u16| escape(m) || pawn(m);
                let a2 = |m: u16| a1(m) || knight(m);
                let a3 = |m: u16| a2(m) || bishop(m);
                let a4 = |m: u16| a3(m) || rook(m);
                assert forall|m: u16|
                    !(#[trigger] escape(m) && pawn(m)) && !(a1(m) && knight(m)) && !(a2(m)
                        && bishop(m)) && !(a3(m) && rook(m)) && !(a4(m) && queen(m)) by {
                    lemma_rules_exclusive(b, targets, targets, m);
                    lemma_rules_exclusive(b, king_escape_squares(b), targets, m);
                }
                lemma_extends_then(l0, l1, l2, escape, pawn, a1);
                lemma_extends_then(l0, l2, l3, a1, knight, a2);
                lemma_extends_then(l0, l3, l4, a2, bishop, a3);
                lemma_extends_then(l0, l4, l5, a3, rook, a4);
                lemma_extends_then(
                    l0,
                    l5,
                    self.list(),
                    a4,
                    queen,
                    |m: u16| evasion_move(b, m),
                );
                // The moves come in the order of the generators.
                assert forall|m: u16|
                    (#[trigger] knight(m) ==> move_order(b, m) == 3) && (bishop(m) ==> move_order(
                        b,
                        m,
                    ) == 4) && (rook(m) ==> move_order(b, m) == 5) && (queen(m) ==> move_order(
                        b,
                        m,
                    ) == 6) by {
                    lemma_move_order(b, targets, m);
                }
                let from = l0.len() as int;
                lemma_extends_prefix(l1, l2, pawn);
                lemma_ordered_join(b, l1, l2, from, -1, -1, 2);
                lemma_extends_prefix(l2, l3, knight);
                lemma_ordered_single(b, l2, l3, knight, 3);
                lemma_ordered_join(b, l2, l3, from, -1, 2, 3);
                lemma_extends_prefix(l3, l4, bishop);
                lemma_ordered_single(b, l3, l4, bishop, 4);
                lemma_ordered_join(b, l3, l4, from, -1, 3, 4);
                lemma_extends_prefix(l4, l5, rook);
                lemma_ordered_single(b, l4, l5, rook, 5);
                lemma_ordered_join(b, l4, l5, from, -1, 4, 5);
                lemma_extends_prefix(l5, self.list(), queen);
                lemma_ordered_single(b, l5, self.list(), queen, 6);
                lemma_ordered_join(b, l5, self.list(), from, -1, 5, 6);
            }
        } else {
            // More than one piece gives check: only the king can move.
            proof {
                lemma_extends_same(l0, l1, escape, |m: u16| evasion_move(b, m));
            }
        }
    }

    /// Generates the moves of the side to move: appends to the list every
    /// move that the rules of the generator give for the board, each once,
    /// in the order of the generators: pawn advances, pawn captures, en
    /// passant captures, the moves of knights, bishops, rooks and queens,
    /// king moves, castling; in check the king moves come first.
    /// On a legal board these are the legal moves: every legal move is in
    /// the list, and every move in the list is legal.
    pub fn gen_legal_moves(&mut self)
        requires
            old(self).wf(),
        ensures
            final(self).wf(),
            final(self).board() == old(self).board(),
            extends(
                old(self).list(),
                final(self).list(),
                |m: u16| generated(old(self).board(), m),
            ),
            old(self).list().len() <= final(self).list().len(),
            final(self).list().subrange(0, old(self).list().len() as int) == old(self).list(),
            ordered_from(
                old(self).board(),
                final(self).list(),
                old(self).list().len() as int,
                -1,
                8,
            ),
            old(self).list().len() == 0 ==> final(self).list().no_duplicates(),
            old(self).list().len() == 0 ==> forall|m: u16|
                final(self).list().contains(m) <==> generated(old(self).board(), m),
            old(self).list().len() == 0 && old(self).board().playable() ==> forall|i: int|
                0 <= i < final(self).list().len() ==> move_suits(
                    old(self).board(),
                    #[trigger] final(self).list()[i],
                ),
            old(self).list().len() == 0 && old(self).board().legal() ==> forall|m: u16|
                final(self).list().contains(m) <==> legal_move(old(self).board(), m),
    {
        let ghost b = self.board();
        let ghost l0 = self.list();
        let (king, king_sq) = self.king();
        let seen = king & self.attacked;
        proof {
            if seen != 0 {
                lemma_nonzero(seen);
            }
            if b.in_check(b.side) {
                assert(bb_has(seen, king_sq as int));
            }
        }
        if seen != 0 {
            self.gen_get_out_of_check_moves();
            proof {
                lemma_extends_same(
                    l0,
                    self.list(),
                    |m: u16| evasion_move(b, m),
                    |m: u16| generated(b, m),
                );
            }
        } else {
            let all: u64 = ALL_SQUARES;
            self.gen_pawn_moves(all);
            let ghost l1 = self.list();
            self.gen_knight_moves(all);
            let ghost l2 = self.list();
            self.gen_bishop_moves(all);
            let ghost l3 = self.list();
            self.gen_rook_moves(all);
            let ghost l4 = self.list();
            self.gen_queen_moves(all);
            let ghost l5 = self.list();
            self.gen_king_moves(all);
            let ghost l6 = self.list();
            self.gen_castling_moves();
            proof {
                let pawn = |m: u16|
                    pawn_push(b, all, m) || pawn_capture(b, all, m) || ep_capture(b, all, m);
                let knight = |m: u16| piece_move(b, Piece::Knight, all, m);
                let bishop = |m: u16| piece_move(b, Piece::Bishop, all, m);
                let rook = |m: u16| piece_move(b, Piece::Rook, all, m);
                let queen = |m: u16| piece_move(b, Piece::Queen, all, m);
                let king_moves = |m: u16| king_move(b, all, m);
                let castle = |m: u16| castle_move(b, m);
                let a2 = |m: u16| pawn(m) || knight(m);
                let a3 = |m: u16| a2(m) || bishop(m);
                let a4 = |m: u16| a3(m) || rook(m);
                let a5 = |m: u16| a4(m) || queen(m);
                let a6 = |m: u16| a5(m) || king_moves(m);
                assert forall|m: u16|
                    !(#[trigger] pawn(m) && knight(m)) && !(a2(m) && bishop(m)) && !(a3(m)
                        && rook(m)) && !(a4(m) && queen(m)) && !(a5(m) && king_moves(m)) && !(a6(m)
                        && castle(m)) by {
                    lemma_rules_exclusive(b, all, all, m);
                }
                lemma_extends_then(l0, l1, l2, pawn, knight, a2);
                lemma_extends_then(l0, l2, l3, a2, bishop, a3);
                lemma_extends_then(l0, l3, l4, a3, rook, a4);
                lemma_extends_then(l0, l4, l5, a4, queen, a5);
                lemma_extends_then(l0, l5, l6, a5, king_moves, a6);
                // The moves come in the order of the generators.
                assert forall|m: u16|
                    (#[trigger] knight(m) ==> move_order(b, m) == 3) && (bishop(m) ==> move_order(
                        b,
                        m,
                    ) == 4) && (rook(m) ==> move_order(b, m) == 5) && (queen(m) ==> move_order(
                        b,
                        m,
                    ) == 6) && (king_moves(m) ==> move_order(b, m) == 7) && (castle(m)
                        ==> move_order(b, m) == 8) by {
                    lemma_move_order(b, all, m);
                }
                let from = l0.len() as int;
                lemma_extends_prefix(l0, l1, pawn);
                lemma_extends_prefix(l1, l2, knight);
                lemma_ordered_single(b, l1, l2, knight, 3);
                lemma_ordered_join(b, l1, l2, from, 0, 2, 3);
                lemma_extends_prefix(l2, l3, bishop);
                lemma_ordered_single(b, l2, l3, bishop, 4);
                lemma_ordered_join(b, l2, l3, from, 0, 3, 4);
                lemma_extends_prefix(l3, l4, rook);
                lemma_ordered_single(b, l3, l4, rook, 5);
                lemma_ordered_join(b, l3, l4, from, 0, 4, 5);
                lemma_extends_prefix(l4, l5, queen);
                lemma_ordered_single(b, l4, l5, queen, 6);
                lemma_ordered_join(b, l4, l5, from, 0, 5, 6);
                lemma_extends_prefix(l5, l6, king_moves);
                lemma_ordered_single(b, l5, l6, king_moves, 7);
                lemma_ordered_join(b, l5, l6, from, 0, 6, 7);
                lemma_extends_prefix(l6, self.list(), castle);
                lemma_ordered_single(b, l6, self.list(), castle, 8);
                lemma_ordered_join(b, l6, self.list(), from, 0, 7, 8);
                lemma_extends_then(l0, l6, self.list(), a6, castle, |m: u16| generated(b, m));
            }
        }
        proof {
            reveal(extends);
            if l0.len() == 0 {
                assert forall|m: u16| self.list().contains(m) <==> generated(b, m) by {
                    assert(!l0.contains(m));
                }
                if b.playable() {
                    assert forall|i: int| 0 <= i < self.list().len() implies move_suits(
                        b,
                        #[trigger] self.list()[i],
                    ) by {
                        assert(self.list().contains(self.list()[i]));
                        crate::rules::lemma_generated_suits(b, self.list()[i]);
                    }
                }
                if b.legal() {
                    assert forall|m: u16| self.list().contains(m) <==> legal_move(b, m) by {
                        crate::completeness::lemma_generated_iff_legal(b, m);
                    }
                }
            }
        }
    }
}

} // verus!
