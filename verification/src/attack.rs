//! Attack sets: which squares the pieces on a bitboard attack.
//!
//! Knights and kings are looked up in a table by square. Rooks and bishops
//! are looked up in magic tables: per square, a mask of the squares that can
//! block, a multiplier and a shift that turn the blockers into an index.

use vstd::prelude::*;
use crate::bitboard::{
    RANK_BITBOARDS, FILE_BITBOARDS, lemma_rank_mask, lemma_file_mask, bb_north, bb_south, bb_east,
    bb_west, bb_lsb, bb_pop, bb_from_sq,
};
use crate::bits::{
    bb_has, bit, lowest, popcount, group_has, lemma_nonzero, lemma_ext, lemma_popcount_one,
    lemma_lowest,
};
use crate::geometry::{
    scale, dist, walk, rook_reach, bishop_reach, queen_reach, knight_reach, king_reach, pawn_reach,
    straight, diagonal, aligned, clear, dir_r, dir_f,
};
use crate::magic::{
    SliderTable, SliderView, slider_reach, magics_ok, init_slider, lemma_table_unique,
    lemma_table_size,
};
use crate::position::{Position, Board};
use crate::square::{
    rank, file, sq_at, rank_of, file_of, on_board, lemma_coordinates, lemma_square, lemma_rank_up,
    lemma_file_up,
};
use crate::things::{Color, Piece};

verus! {

broadcast use group_has;

/// A coordinate that moves in direction `d` stays off the two edges.
pub open spec fn off_edge(d: int, c: int) -> bool {
    d == 0 || 1 <= c <= 6
}

/// Square `t` is hit by sliding from `s` in the direction `(dr, df)` until
/// something in `occ` is met, that square included. With `inner`, the slide
/// also stops before the edge of the board that it runs towards.
#[verifier::opaque]
pub open spec fn slide_hit(s: int, occ: u64, dr: int, df: int, inner: bool, t: int) -> bool {
    let k = dist(s, t);
    &&& 0 <= t < 64
    &&& k >= 1
    &&& rank(t) == rank(s) + scale(k, dr)
    &&& file(t) == file(s) + scale(k, df)
    &&& forall|j: int| 1 <= j < k ==> !bb_has(occ, #[trigger] walk(s, dr, df, j))
    &&& inner ==> off_edge(dr, rank(t)) && off_edge(df, file(t))
}

/// A coordinate `c` that moves in direction `d` is on the board and, with
/// `inner`, off the two edges if it moves at all.
pub open spec fn in_limits(d: int, c: int, inner: bool) -> bool {
    if inner && d != 0 {
        1 <= c <= 6
    } else {
        0 <= c <= 7
    }
}

/// Square `t` is one of the first `steps` squares from `s` in the direction
/// `(dr, df)`.
#[verifier::opaque]
pub open spec fn slide_partial(s: int, dr: int, df: int, steps: int, t: int) -> bool {
    &&& 0 <= t < 64
    &&& 1 <= dist(s, t) <= steps
    &&& rank(t) == rank(s) + scale(dist(s, t), dr)
    &&& file(t) == file(s) + scale(dist(s, t), df)
}

/// What holds while sliding from `s`: after `steps` steps the slide stands
/// on rank `r` and file `f`, nothing it passed or stands on is in `occ`,
/// and `attack` holds the squares passed so far.
#[verifier::opaque]
pub open spec fn slide_state(
    s: int,
    occ: u64,
    dr: int,
    df: int,
    inner: bool,
    steps: int,
    r: int,
    f: int,
    attack: u64,
) -> bool {
    &&& 0 <= steps <= 7
    &&& r == rank(s) + scale(steps, dr)
    &&& f == file(s) + scale(steps, df)
    &&& on_board(r, f)
    &&& steps > 0 ==> in_limits(dr, r, inner) && in_limits(df, f, inner)
    &&& forall|j: int| 1 <= j <= steps ==> !bb_has(occ, #[trigger] walk(s, dr, df, j))
    &&& forall|t: int| bb_has(attack, t) == slide_partial(s, dr, df, steps, t)
}

/// Before the first step nothing is passed and nothing is in the attack set.
proof fn lemma_slide_start(s: int, occ: u64, dr: int, df: int, inner: bool)
    requires
        0 <= s < 64,
    ensures
        slide_state(s, occ, dr, df, inner, 0, rank(s), file(s), 0),
{
    reveal(slide_state);
    reveal(slide_partial);
}

/// Where the next step would leave the board, or with `inner` reach its edge,
/// the squares passed so far are the squares hit.
proof fn lemma_slide_edge(
    s: int,
    occ: u64,
    dr: int,
    df: int,
    inner: bool,
    steps: int,
    r: int,
    f: int,
    attack: u64,
)
    requires
        0 <= s < 64,
        -1 <= dr <= 1,
        -1 <= df <= 1,
        dr != 0 || df != 0,
        slide_state(s, occ, dr, df, inner, steps, r, f, attack),
        !(in_limits(dr, r + dr, inner) && in_limits(df, f + df, inner)),
    ensures
        forall|t: int| bb_has(attack, t) == slide_hit(s, occ, dr, df, inner, t),
{
    reveal(slide_state);
    reveal(slide_partial);
    reveal(slide_hit);
    lemma_square(s);
    assert forall|t: int| bb_has(attack, t) == slide_hit(s, occ, dr, df, inner, t) by {
        let k = dist(s, t);
        if 0 <= t < 64 {
            lemma_square(t);
        }
        if slide_hit(s, occ, dr, df, inner, t) {
            assert(k <= steps);
        }
        if bb_has(attack, t) {
            assert(slide_partial(s, dr, df, steps, t));
            assert forall|j: int| 1 <= j < k implies !bb_has(
                occ,
                #[trigger] walk(s, dr, df, j),
            ) by {}
        }
    }
}

/// One more step: on an occupied square the slide ends with that square
/// hit, on an empty one it goes on.
proof fn lemma_slide_advance(
    s: int,
    occ: u64,
    dr: int,
    df: int,
    inner: bool,
    steps: int,
    r: int,
    f: int,
    attack: u64,
    x: u64,
)
    requires
        0 <= s < 64,
        -1 <= dr <= 1,
        -1 <= df <= 1,
        dr != 0 || df != 0,
        slide_state(s, occ, dr, df, inner, steps, r, f, attack),
        in_limits(dr, r + dr, inner),
        in_limits(df, f + df, inner),
        x == RANK_BITBOARDS[r + dr] & FILE_BITBOARDS[f + df],
    ensures
        steps < 7,
        x & occ != 0 ==> forall|t: int|
            bb_has(attack | x, t) == slide_hit(s, occ, dr, df, inner, t),
        x & occ == 0 ==> slide_state(s, occ, dr, df, inner, steps + 1, r + dr, f + df, attack | x),
{
    reveal(slide_state);
    reveal(slide_partial);
    reveal(slide_hit);
    lemma_square(s);
    let nr = r + dr;
    let nf = f + df;
    let here = sq_at(nr, nf);
    lemma_single_square(nr, nf, x);
    lemma_coordinates(nr, nf);
    assert(here == walk(s, dr, df, steps + 1));
    assert(dist(s, here) == steps + 1);
    let after = attack | x;
    assert forall|t: int| bb_has(after, t) == slide_partial(s, dr, df, steps + 1, t) by {
        if 0 <= t < 64 {
            lemma_square(t);
        }
    }
    if x & occ != 0 {
        lemma_nonzero(x & occ);
        assert(bb_has(occ, here));
        assert forall|t: int| bb_has(after, t) == slide_hit(s, occ, dr, df, inner, t) by {
            let k = dist(s, t);
            if 0 <= t < 64 {
                lemma_square(t);
            }
            if slide_hit(s, occ, dr, df, inner, t) {
                if k > steps + 1 {
                    assert(!bb_has(occ, walk(s, dr, df, steps + 1)));
                }
                assert(k <= steps + 1);
            }
            if bb_has(after, t) {
                assert(slide_partial(s, dr, df, steps + 1, t));
                assert forall|j: int| 1 <= j < k implies !bb_has(
                    occ,
                    #[trigger] walk(s, dr, df, j),
                ) by {}
            }
        }
    } else {
        if bb_has(occ, here) {
            assert(bb_has(x & occ, here));
        }
        assert forall|j: int| 1 <= j <= steps + 1 implies !bb_has(
            occ,
            #[trigger] walk(s, dr, df, j),
        ) by {}
    }
}

/// The squares hit by sliding from `sq` in one direction.
fn slide(sq: u8, occupancy: u64, dr: i8, df: i8, inner: bool) -> (attack: u64)
    requires
        sq < 64,
        -1 <= dr <= 1,
        -1 <= df <= 1,
        dr != 0 || df != 0,
    ensures
        forall|t: int|
            bb_has(attack, t) == slide_hit(sq as int, occupancy, dr as int, df as int, inner, t),
{
    let lo_r: i8 = if inner && dr != 0 { 1 } else { 0 };
    let hi_r: i8 = if inner && dr != 0 { 6 } else { 7 };
    let lo_f: i8 = if inner && df != 0 { 1 } else { 0 };
    let hi_f: i8 = if inner && df != 0 { 6 } else { 7 };
    let ghost s = sq as int;
    let ghost mut steps: int = 0;
    let mut attack: u64 = 0;
    let mut r = rank_of(sq) as i8;
    let mut f = file_of(sq) as i8;
    proof {
        lemma_slide_start(s, occupancy, dr as int, df as int, inner);
    }
    loop
        invariant_except_break
            0 <= r < 8,
            0 <= f < 8,
            0 <= steps <= 7,
            slide_state(
                s,
                occupancy,
                dr as int,
                df as int,
                inner,
                steps,
                r as int,
                f as int,
                attack,
            ),
        invariant
            sq < 64,
            s == sq as int,
            -1 <= dr <= 1,
            -1 <= df <= 1,
            dr != 0 || df != 0,
            lo_r == if inner && dr != 0 { 1i8 } else { 0i8 },
            hi_r == if inner && dr != 0 { 6i8 } else { 7i8 },
            lo_f == if inner && df != 0 { 1i8 } else { 0i8 },
            hi_f == if inner && df != 0 { 6i8 } else { 7i8 },
        ensures
            forall|t: int|
                bb_has(attack, t) == slide_hit(s, occupancy, dr as int, df as int, inner, t),
        decreases 8 - steps,
    {
        let nr = r + dr;
        let nf = f + df;
        if nr < lo_r || nr > hi_r || nf < lo_f || nf > hi_f {
            proof {
                lemma_slide_edge(
                    s,
                    occupancy,
                    dr as int,
                    df as int,
                    inner,
                    steps,
                    r as int,
                    f as int,
                    attack,
                );
            }
            break;
        }
        let x = RANK_BITBOARDS[nr as usize] & FILE_BITBOARDS[nf as usize];
        proof {
            lemma_slide_advance(
                s,
                occupancy,
                dr as int,
                df as int,
                inner,
                steps,
                r as int,
                f as int,
                attack,
                x,
            );
            steps = steps + 1;
        }
        r = nr;
        f = nf;
        attack = attack | x;
        if x & occupancy != 0 {
            break;
        }
    }
    attack
}

/// The meet of a rank mask and a file mask holds the one square on both.
pub proof fn lemma_single_square(r: int, f: int, x: u64)
    requires
        on_board(r, f),
        x == RANK_BITBOARDS[r] & FILE_BITBOARDS[f],
    ensures
        forall|t: int| bb_has(x, t) == (t == sq_at(r, f)),
{
    lemma_coordinates(r, f);
    assert forall|t: int| bb_has(x, t) == (t == sq_at(r, f)) by {
        lemma_rank_mask(r, t);
        lemma_file_mask(f, t);
        if 0 <= t < 64 {
            lemma_square(t);
        }
    }
}

/// Sliding in a direction hits exactly the squares that lie in that
/// direction with a clear way to them.
pub proof fn lemma_slide_direction(s: int, occ: u64, dr: int, df: int, t: int)
    requires
        0 <= s < 64,
        -1 <= dr <= 1,
        -1 <= df <= 1,
        dr != 0 || df != 0,
    ensures
        slide_hit(s, occ, dr, df, false, t) == (aligned(s, t) && dir_r(s, t) == dr && dir_f(s, t)
            == df && clear(s, t, occ)),
        slide_hit(s, occ, dr, df, true, t) == (aligned(s, t) && dir_r(s, t) == dr && dir_f(s, t)
            == df && clear(s, t, occ) && off_edge(dr, rank(t)) && off_edge(df, file(t))),
{
    reveal(slide_hit);
    lemma_square(s);
    if 0 <= t < 64 {
        lemma_square(t);
        let k = dist(s, t);
        if k >= 1 && rank(t) == rank(s) + scale(k, dr) && file(t) == file(s) + scale(k, df) {
            assert(s != t);
            assert(aligned(s, t));
            assert(dir_r(s, t) == dr);
            assert(dir_f(s, t) == df);
        }
        if aligned(s, t) && dir_r(s, t) == dr && dir_f(s, t) == df {
            assert(k >= 1);
            assert(rank(t) == rank(s) + scale(k, dr));
            assert(file(t) == file(s) + scale(k, df));
        }
    }
}

/// A rook attack is a slide along the file or the rank.
pub proof fn lemma_rook_slides(s: int, occ: u64, t: int)
    requires
        0 <= s < 64,
    ensures
        rook_reach(s, occ, t) == (slide_hit(s, occ, 1, 0, false, t) || slide_hit(
            s,
            occ,
            -1,
            0,
            false,
            t,
        ) || slide_hit(s, occ, 0, 1, false, t) || slide_hit(s, occ, 0, -1, false, t)),
{
    lemma_slide_direction(s, occ, 1, 0, t);
    lemma_slide_direction(s, occ, -1, 0, t);
    lemma_slide_direction(s, occ, 0, 1, t);
    lemma_slide_direction(s, occ, 0, -1, t);
}

/// A bishop attack is a slide along one of the two diagonals.
pub proof fn lemma_bishop_slides(s: int, occ: u64, t: int)
    requires
        0 <= s < 64,
    ensures
        bishop_reach(s, occ, t) == (slide_hit(s, occ, 1, 1, false, t) || slide_hit(
            s,
            occ,
            1,
            -1,
            false,
            t,
        ) || slide_hit(s, occ, -1, 1, false, t) || slide_hit(s, occ, -1, -1, false, t)),
{
    lemma_slide_direction(s, occ, 1, 1, t);
    lemma_slide_direction(s, occ, 1, -1, t);
    lemma_slide_direction(s, occ, -1, 1, t);
    lemma_slide_direction(s, occ, -1, -1, t);
}

/// Square `t` can block a rook on `s`: it is on the rook's file or rank,
/// is not `s`, and is not the last square of the line it is on.
pub open spec fn rook_mask_has(s: int, t: int) -> bool {
    &&& straight(s, t)
    &&& if file(s) == file(t) {
        1 <= rank(t) <= 6
    } else {
        1 <= file(t) <= 6
    }
}

/// Square `t` can block a bishop on `s`: it is on one of the bishop's
/// diagonals, is not `s`, and is not on the edge of the board.
pub open spec fn bishop_mask_has(s: int, t: int) -> bool {
    &&& diagonal(s, t)
    &&& 1 <= rank(t) <= 6
    &&& 1 <= file(t) <= 6
}

/// The blocker squares of a rook are what four slides that stop before the
/// edge hit on an empty board.
proof fn lemma_rook_mask_slides(s: int, t: int)
    requires
        0 <= s < 64,
    ensures
        rook_mask_has(s, t) == (slide_hit(s, 0, 1, 0, true, t) || slide_hit(s, 0, -1, 0, true, t)
            || slide_hit(s, 0, 0, 1, true, t) || slide_hit(s, 0, 0, -1, true, t)),
{
    lemma_slide_direction(s, 0, 1, 0, t);
    lemma_slide_direction(s, 0, -1, 0, t);
    lemma_slide_direction(s, 0, 0, 1, t);
    lemma_slide_direction(s, 0, 0, -1, t);
}

/// The blocker squares of a bishop are what four diagonal slides that stop
/// before the edge hit on an empty board.
proof fn lemma_bishop_mask_slides(s: int, t: int)
    requires
        0 <= s < 64,
    ensures
        bishop_mask_has(s, t) == (slide_hit(s, 0, 1, 1, true, t) || slide_hit(s, 0, 1, -1, true, t)
            || slide_hit(s, 0, -1, 1, true, t) || slide_hit(s, 0, -1, -1, true, t)),
{
    lemma_slide_direction(s, 0, 1, 1, t);
    lemma_slide_direction(s, 0, 1, -1, t);
    lemma_slide_direction(s, 0, -1, 1, t);
    lemma_slide_direction(s, 0, -1, -1, t);
}

/// The squares whose occupancy matters for a rook on `sq`.
pub fn rook_mask(sq: u8) -> (mask: u64)
    requires
        sq < 64,
    ensures
        forall|t: int| bb_has(mask, t) == rook_mask_has(sq as int, t),
{
    let mask = slide(sq, 0, 1, 0, true) | slide(sq, 0, -1, 0, true) | slide(sq, 0, 0, 1, true)
        | slide(sq, 0, 0, -1, true);
    proof {
        assert forall|t: int| bb_has(mask, t) == rook_mask_has(sq as int, t) by {
            lemma_rook_mask_slides(sq as int, t);
        }
    }
    mask
}

/// The squares whose occupancy matters for a bishop on `sq`.
pub fn bishop_mask(sq: u8) -> (mask: u64)
    requires
        sq < 64,
    ensures
        forall|t: int| bb_has(mask, t) == bishop_mask_has(sq as int, t),
{
    let mask = slide(sq, 0, 1, 1, true) | slide(sq, 0, 1, -1, true) | slide(sq, 0, -1, 1, true)
        | slide(sq, 0, -1, -1, true);
    proof {
        assert forall|t: int| bb_has(mask, t) == bishop_mask_has(sq as int, t) by {
            lemma_bishop_mask_slides(sq as int, t);
        }
    }
    mask
}

/// The squares that a rook on `sq` attacks when `occupancy` holds the
/// occupied squares, found by walking the four rays.
pub fn gen_rook_attack(sq: u8, occupancy: u64) -> (attack: u64)
    requires
        sq < 64,
    ensures
        forall|t: int| bb_has(attack, t) == rook_reach(sq as int, occupancy, t),
{
    let attack = slide(sq, occupancy, 1, 0, false) | slide(sq, occupancy, -1, 0, false) | slide(
        sq,
        occupancy,
        0,
        1,
        false,
    ) | slide(sq, occupancy, 0, -1, false);
    proof {
        assert forall|t: int| bb_has(attack, t) == rook_reach(sq as int, occupancy, t) by {
            lemma_rook_slides(sq as int, occupancy, t);
        }
    }
    attack
}

/// The squares that a bishop on `sq` attacks when `occupancy` holds the
/// occupied squares, found by walking the four rays.
pub fn gen_bishop_attack(sq: u8, occupancy: u64) -> (attack: u64)
    requires
        sq < 64,
    ensures
        forall|t: int| bb_has(attack, t) == bishop_reach(sq as int, occupancy, t),
{
    let attack = slide(sq, occupancy, 1, 1, false) | slide(sq, occupancy, 1, -1, false) | slide(
        sq,
        occupancy,
        -1,
        1,
        false,
    ) | slide(sq, occupancy, -1, -1, false);
    proof {
        assert forall|t: int| bb_has(attack, t) == bishop_reach(sq as int, occupancy, t) by {
            lemma_bishop_slides(sq as int, occupancy, t);
        }
    }
    attack
}

/// Some knight of `knights` attacks `t`.
pub open spec fn knights_attack(knights: u64, t: int) -> bool {
    exists|s: int| #[trigger] bb_has(knights, s) && knight_reach(s, t)
}

/// Some king of `kings` attacks `t`.
pub open spec fn kings_attack(kings: u64, t: int) -> bool {
    exists|s: int| #[trigger] bb_has(kings, s) && king_reach(s, t)
}

/// Some pawn of `pawns`, of side `color`, attacks `t`.
pub open spec fn pawns_attack(pawns: u64, color: Color, t: int) -> bool {
    exists|s: int| #[trigger] bb_has(pawns, s) && pawn_reach(s, color, t)
}

/// Some rook of `rooks` attacks `t` when `occ` holds the occupied squares.
pub open spec fn rooks_attack(rooks: u64, occ: u64, t: int) -> bool {
    exists|s: int| #[trigger] bb_has(rooks, s) && rook_reach(s, occ, t)
}

/// Some bishop of `bishops` attacks `t` when `occ` holds the occupied
/// squares.
pub open spec fn bishops_attack(bishops: u64, occ: u64, t: int) -> bool {
    exists|s: int| #[trigger] bb_has(bishops, s) && bishop_reach(s, occ, t)
}

/// Some queen of `queens` attacks `t` when `occ` holds the occupied squares.
pub open spec fn queens_attack(queens: u64, occ: u64, t: int) -> bool {
    exists|s: int| #[trigger] bb_has(queens, s) && queen_reach(s, occ, t)
}

/// The four masks that keep a knight's step from wrapping round the board:
/// all files but the h-file, but the g- and h-file, but the a-file, but the
/// a- and b-file.
proof fn lemma_bit_file_groups()
    by (bit_vector)
    ensures
        forall|i: u64| i < 64 ==> #[trigger] bit(0x7f7f_7f7f_7f7f_7f7fu64, i) == (i % 8 != 7),
        forall|i: u64| i < 64 ==> #[trigger] bit(0x3f3f_3f3f_3f3f_3f3fu64, i) == (i % 8 < 6),
        forall|i: u64| i < 64 ==> #[trigger] bit(0xfefe_fefe_fefe_fefeu64, i) == (i % 8 != 0),
        forall|i: u64| i < 64 ==> #[trigger] bit(0xfcfc_fcfc_fcfc_fcfcu64, i) == (i % 8 >= 2),
{
}

/// A knight of `knights` stands `off` squares from `t` and attacks it.
pub open spec fn knight_from(knights: u64, t: int, off: int) -> bool {
    bb_has(knights, t + off) && knight_reach(t + off, t)
}

/// The eight knight moves as differences of square numbers, each with the
/// files from which it stays on the board.
pub proof fn lemma_knight_offsets(s: int, t: int)
    requires
        0 <= s < 64,
        0 <= t < 64,
    ensures
        knight_reach(s, t) == ((s == t - 17 && file(t) != 0) || (s == t - 15 && file(t) != 7) || (s
            == t + 15 && file(t) != 0) || (s == t + 17 && file(t) != 7) || (s == t - 10 && file(t)
            >= 2) || (s == t - 6 && file(t) < 6) || (s == t + 6 && file(t) >= 2) || (s == t + 10
            && file(t) < 6)),
{
    lemma_square(s);
    lemma_square(t);
}

/// A square is attacked by a knight exactly when a knight stands at one of
/// the eight knight's distances from it.
proof fn lemma_knight_sources(knights: u64, t: int)
    requires
        0 <= t < 64,
    ensures
        knights_attack(knights, t) == (knight_from(knights, t, -17) || knight_from(
            knights,
            t,
            -15,
        ) || knight_from(knights, t, 15) || knight_from(knights, t, 17) || knight_from(
            knights,
            t,
            -10,
        ) || knight_from(knights, t, -6) || knight_from(knights, t, 6) || knight_from(
            knights,
            t,
            10,
        )),
{
    if knights_attack(knights, t) {
        let s = choose|s: int| #[trigger] bb_has(knights, s) && knight_reach(s, t);
        lemma_knight_offsets(s, t);
    }
}

/// What one of the four shifts of the knight computation contributes: the
/// knights one or two files aside, moved two ranks or one.
proof fn lemma_knight_shifted(knights: u64, h: u64, t: int, up: int, a: int, b: int)
    requires
        0 <= t < 64,
        up == 16 || up == -16 || up == 8 || up == -8,
        up == 16 || up == -16 ==> a == 1 && b == -1,
        up == 8 || up == -8 ==> a == 2 && b == -2,
        forall|u: int|
            bb_has(h, u) == (0 <= u < 64 && ((file(u) + a < 8 && bb_has(knights, u + a)) || (
            file(u) + b >= 0 && bb_has(knights, u + b)))),
    ensures
        (0 <= t - up < 64 && bb_has(h, t - up)) == (knight_from(knights, t, a - up) || knight_from(
            knights,
            t,
            b - up,
        )),
{
    lemma_rank_up(t);
    lemma_square(t);
    if 0 <= t + a - up < 64 {
        lemma_knight_offsets(t + a - up, t);
    }
    if 0 <= t + b - up < 64 {
        lemma_knight_offsets(t + b - up, t);
    }
}

/// The squares that the knights of `knights` attack.
pub fn calc_knight_attacks(knights: u64) -> (attack: u64)
    ensures
        forall|t: int| bb_has(attack, t) == knights_attack(knights, t),
{
    let l1 = (knights >> 1) & 0x7f7f7f7f7f7f7f7f;
    let l2 = (knights >> 2) & 0x3f3f3f3f3f3f3f3f;
    let r1 = (knights << 1) & 0xfefefefefefefefe;
    let r2 = (knights << 2) & 0xfcfcfcfcfcfcfcfc;
    let h1 = l1 | r1;
    let h2 = l2 | r2;
    let attack = (h1 << 16) | (h1 >> 16) | (h2 << 8) | (h2 >> 8);
    proof {
        lemma_bit_file_groups();
        assert forall|u: int|
            bb_has(h1, u) == (0 <= u < 64 && ((file(u) + 1 < 8 && bb_has(knights, u + 1)) || (file(
                u,
            ) + (-1) >= 0 && bb_has(knights, u + (-1))))) by {}
        assert forall|u: int|
            bb_has(h2, u) == (0 <= u < 64 && ((file(u) + 2 < 8 && bb_has(knights, u + 2)) || (file(
                u,
            ) + (-2) >= 0 && bb_has(knights, u + (-2))))) by {}
        assert forall|t: int| bb_has(attack, t) == knights_attack(knights, t) by {
            if 0 <= t < 64 {
                lemma_knight_sources(knights, t);
                lemma_knight_shifted(knights, h1, t, 16, 1, -1);
                lemma_knight_shifted(knights, h1, t, -16, 1, -1);
                lemma_knight_shifted(knights, h2, t, 8, 2, -2);
                lemma_knight_shifted(knights, h2, t, -8, 2, -2);
            } else {
                assert(!knights_attack(knights, t));
            }
        }
    }
    attack
}

/// The eight king moves as differences of square numbers, each with the
/// files from which it stays on the board.
pub proof fn lemma_king_offsets(s: int, t: int)
    requires
        0 <= s < 64,
        0 <= t < 64,
    ensures
        king_reach(s, t) == (s == t + 8 || s == t - 8 || (file(t) != 7 && (s == t + 1 || s == t
            + 9 || s == t - 7)) || (file(t) != 0 && (s == t - 1 || s == t + 7 || s == t - 9))),
{
    lemma_square(s);
    lemma_square(t);
}

/// A square is attacked by a king exactly when a king stands on one of its
/// neighbours.
proof fn lemma_king_sources(king: u64, t: int)
    requires
        0 <= t < 64,
    ensures
        kings_attack(king, t) == (bb_has(king, t + 8) || bb_has(king, t - 8) || (file(t) != 7 && (
        bb_has(king, t + 1) || bb_has(king, t + 9) || bb_has(king, t - 7))) || (file(t) != 0 && (
        bb_has(king, t - 1) || bb_has(king, t + 7) || bb_has(king, t - 9)))),
{
    if kings_attack(king, t) {
        let s = choose|s: int| #[trigger] bb_has(king, s) && king_reach(s, t);
        lemma_king_offsets(s, t);
    }
    if 0 <= t + 8 < 64 {
        lemma_king_offsets(t + 8, t);
    }
    if 0 <= t - 8 < 64 {
        lemma_king_offsets(t - 8, t);
    }
    if 0 <= t + 1 < 64 {
        lemma_king_offsets(t + 1, t);
    }
    if 0 <= t + 9 < 64 {
        lemma_king_offsets(t + 9, t);
    }
    if 0 <= t - 7 < 64 {
        lemma_king_offsets(t - 7, t);
    }
    if 0 <= t - 1 < 64 {
        lemma_king_offsets(t - 1, t);
    }
    if 0 <= t + 7 < 64 {
        lemma_king_offsets(t + 7, t);
    }
    if 0 <= t - 9 < 64 {
        lemma_king_offsets(t - 9, t);
    }
}

/// The kings' squares spread one rank up and down and then one file left
/// and right are the kings' squares and what the kings attack.
proof fn lemma_king_block(king: u64, column: u64, block: u64, t: int)
    requires
        0 <= t < 64,
        forall|u: int|
            bb_has(column, u) == (0 <= u < 64 && (bb_has(king, u) || bb_has(king, u - 8) || bb_has(
                king,
                u + 8,
            ))),
        forall|u: int|
            bb_has(block, u) == (0 <= u < 64 && (bb_has(column, u) || (file(u) != 0 && bb_has(
                column,
                u - 1,
            )) || (file(u) != 7 && bb_has(column, u + 1)))),
    ensures
        bb_has(block, t) == (bb_has(king, t) || kings_attack(king, t)),
{
    lemma_king_sources(king, t);
    lemma_file_up(t);
}

/// The squares next to a king of `king` that hold no king of `king`.
pub fn calc_king_attacks(king: u64) -> (attack: u64)
    ensures
        forall|t: int| bb_has(attack, t) == (!bb_has(king, t) && kings_attack(king, t)),
{
    let mut attack = king;
    attack |= bb_north(attack);
    attack |= bb_south(attack);
    let column = attack;
    attack |= bb_east(attack);
    attack |= bb_west(attack);
    let block = attack;
    attack &= !king;
    proof {
        assert forall|u: int|
            bb_has(column, u) == (0 <= u < 64 && (bb_has(king, u) || bb_has(king, u - 8) || bb_has(
                king,
                u + 8,
            ))) by {}
        assert forall|u: int|
            bb_has(block, u) == (0 <= u < 64 && (bb_has(column, u) || (file(u) != 0 && bb_has(
                column,
                u - 1,
            )) || (file(u) != 7 && bb_has(column, u + 1)))) by {}
        assert forall|t: int| bb_has(attack, t) == (!bb_has(king, t) && kings_attack(king, t)) by {
            if 0 <= t < 64 {
                lemma_king_block(king, column, block, t);
            } else {
                assert(!kings_attack(king, t));
            }
        }
    }
    attack
}

/// The squares that White's pawns of `pawns` attack.
pub fn pawn_attacks_white(pawns: u64) -> (attack: u64)
    ensures
        forall|t: int| bb_has(attack, t) == pawns_attack(pawns, Color::White, t),
{
    let west = bb_west(pawns);
    let east = bb_east(pawns);
    let attack = bb_north(west) | bb_north(east);
    proof {
        assert forall|t: int| bb_has(attack, t) == pawns_attack(pawns, Color::White, t) by {
            if 0 <= t < 64 {
                lemma_square(t);
                if bb_has(attack, t) {
                    let s = if 8 <= t && bb_has(west, t - 8) {
                        t - 7
                    } else {
                        t - 9
                    };
                    lemma_rank_up(t);
                    lemma_file_up(t - 8);
                    lemma_square(s);
                    assert(bb_has(pawns, s) && pawn_reach(s, Color::White, t));
                }
                if pawns_attack(pawns, Color::White, t) {
                    let s = choose|s: int| #[trigger]
                        bb_has(pawns, s) && pawn_reach(s, Color::White, t);
                    lemma_square(s);
                    lemma_rank_up(t);
                    lemma_file_up(t - 8);
                    assert(s == t - 7 || s == t - 9);
                    if s == t - 7 {
                        assert(bb_has(west, t - 8));
                    } else {
                        assert(bb_has(east, t - 8));
                    }
                }
            }
        }
    }
    attack
}

/// The squares that Black's pawns of `pawns` attack.
pub fn pawn_attacks_black(pawns: u64) -> (attack: u64)
    ensures
        forall|t: int| bb_has(attack, t) == pawns_attack(pawns, Color::Black, t),
{
    let west = bb_west(pawns);
    let east = bb_east(pawns);
    let attack = bb_south(west) | bb_south(east);
    proof {
        assert forall|t: int| bb_has(attack, t) == pawns_attack(pawns, Color::Black, t) by {
            if 0 <= t < 64 {
                lemma_square(t);
                if bb_has(attack, t) {
                    let s = if t < 56 && bb_has(west, t + 8) {
                        t + 9
                    } else {
                        t + 7
                    };
                    lemma_rank_up(t);
                    lemma_file_up(t + 8);
                    lemma_square(s);
                    assert(bb_has(pawns, s) && pawn_reach(s, Color::Black, t));
                }
                if pawns_attack(pawns, Color::Black, t) {
                    let s = choose|s: int| #[trigger]
                        bb_has(pawns, s) && pawn_reach(s, Color::Black, t);
                    lemma_square(s);
                    lemma_rank_up(t);
                    lemma_file_up(t + 8);
                    assert(s == t + 7 || s == t + 9);
                    if s == t + 9 {
                        assert(bb_has(west, t + 8));
                    } else {
                        assert(bb_has(east, t + 8));
                    }
                }
            }
        }
    }
    attack
}

/// The squares that the pawns of `pawns`, of side `color`, attack.
pub fn pawn_attacks(pawns: u64, color: Color) -> (attack: u64)
    requires
        color != Color::NoColor,
    ensures
        forall|t: int| bb_has(attack, t) == pawns_attack(pawns, color, t),
{
    match color {
        Color::White => pawn_attacks_white(pawns),
        _ => pawn_attacks_black(pawns),
    }
}

/// Some slider of `pieces`, all rooks (`rook` true) or all bishops,
/// attacks `t` when `occ` holds the occupied squares.
pub open spec fn sliders_attack(rook: bool, pieces: u64, occ: u64, t: int) -> bool {
    exists|s: int| #[trigger] bb_has(pieces, s) && slider_reach(rook, s, occ, t)
}

/// On an empty board, a piece of kind `piece` on `s` attacks `t`. Pawns
/// are not covered: what they attack depends on their side.
pub open spec fn empty_reach(piece: Piece, s: int, t: int) -> bool {
    match piece {
        Piece::Knight => knight_reach(s, t),
        Piece::Bishop => bishop_reach(s, 0, t),
        Piece::Rook => rook_reach(s, 0, t),
        Piece::Queen => queen_reach(s, 0, t),
        Piece::King => king_reach(s, t),
        _ => false,
    }
}

/// The precomputed attack tables: what each piece attacks from each square
/// of an empty board, and the magic tables of the bishop and the rook.
pub struct AttackTables {
    empty_board: Vec<u64>,
    bishop: SliderTable,
    rook: SliderTable,
}

/// The contents of the attack tables.
pub ghost struct AttackView {
    pub empty_board: Seq<u64>,
    pub bishop: SliderView,
    pub rook: SliderView,
}

impl AttackView {
    /// Entry `64 * piece + s` of the empty-board table holds what `piece`
    /// attacks from `s`, and both magic tables are complete and right.
    pub open spec fn wf(self) -> bool {
        &&& self.empty_board.len() == 384
        &&& forall|p: int, s: int, t: int|
            0 <= p < 6 && 0 <= s < 64 ==> #[trigger] bb_has(self.empty_board[64 * p + s], t)
                == empty_reach(piece_of_number(p), s, t)
        &&& self.bishop.wf(false)
        &&& self.rook.wf(true)
    }
}

/// The piece kind with the number `p`.
pub open spec fn piece_of_number(p: int) -> Piece {
    if p == 0 {
        Piece::Pawn
    } else if p == 1 {
        Piece::Knight
    } else if p == 2 {
        Piece::Bishop
    } else if p == 3 {
        Piece::Rook
    } else if p == 4 {
        Piece::Queen
    } else if p == 5 {
        Piece::King
    } else {
        Piece::NoPiece
    }
}

impl View for AttackTables {
    type V = AttackView;

    closed spec fn view(&self) -> AttackView {
        AttackView { empty_board: self.empty_board@, bishop: self.bishop@, rook: self.rook@ }
    }
}

impl AttackTables {
    /// The tables are complete and right.
    pub open spec fn wf(&self) -> bool {
        self@.wf()
    }

    /// Number of entries of the bishop's magic table: 5248 in complete
    /// tables.
    pub fn bishop_table_len(&self) -> (n: usize)
        ensures
            n == self@.bishop.table.len(),
            self.wf() ==> n == 5248,
    {
        proof {
            lemma_table_size(false);
        }
        self.bishop.len()
    }

    /// Number of entries of the rook's magic table: 102400 in complete
    /// tables.
    pub fn rook_table_len(&self) -> (n: usize)
        ensures
            n == self@.rook.table.len(),
            self.wf() ==> n == 102400,
    {
        proof {
            lemma_table_size(true);
        }
        self.rook.len()
    }
}

/// Building the tables twice gives the same tables: complete tables are
/// equal entry for entry.
pub proof fn lemma_tables_unique(a: AttackView, b: AttackView)
    requires
        a.wf(),
        b.wf(),
    ensures
        a == b,
{
    lemma_table_unique(false, a.bishop, b.bishop);
    lemma_table_unique(true, a.rook, b.rook);
    assert forall|j: int| 0 <= j < 384 implies a.empty_board[j] == b.empty_board[j] by {
        let p = j / 64;
        let s = j % 64;
        assert(j == 64 * p + s);
        assert forall|t: int| 0 <= t < 64 implies bb_has(a.empty_board[j], t) == bb_has(
            b.empty_board[j],
            t,
        ) by {
            assert(bb_has(a.empty_board[64 * p + s], t) == empty_reach(piece_of_number(p), s, t));
            assert(bb_has(b.empty_board[64 * p + s], t) == empty_reach(piece_of_number(p), s, t));
        }
        lemma_ext(a.empty_board[j], b.empty_board[j]);
    }
    assert(a.empty_board =~= b.empty_board);
}

/// Where the empty-board table holds what `piece` attacks from `sq`.
fn empty_board_index(piece: Piece, sq: u8) -> (index: usize)
    requires
        piece != Piece::NoPiece,
        sq < 64,
    ensures
        index == 64 * piece.number() + sq,
        index < 384,
{
    piece.index() * 64 + sq as usize
}

/// Builds the magic table of the bishop.
fn init_bishop() -> (res: Option<SliderTable>)
    ensures
        res is Some <==> magics_ok(false),
        res is Some ==> res->0.wf(false),
{
    init_slider(false)
}

/// Builds the magic table of the rook.
fn init_rook() -> (res: Option<SliderTable>)
    ensures
        res is Some <==> magics_ok(true),
        res is Some ==> res->0.wf(true),
{
    init_slider(true)
}

/// The first `n` squares of the empty-board table are filled in.
pub open spec fn empty_board_filled(table: Seq<u64>, n: int) -> bool {
    &&& table.len() == 384
    &&& forall|p: int, s: int, t: int|
        0 <= p < 6 && 0 <= s < 64 ==> #[trigger] bb_has(table[64 * p + s], t) == (s < n
            && empty_reach(piece_of_number(p), s, t))
}

/// Builds the attack tables. Gives `None` when one of the 128 multipliers
/// is not sound, that is, when it sends two sets of blockers with different
/// attack sets to one index.
pub fn init() -> (res: Option<AttackTables>)
    ensures
        res is Some <==> magics_ok(false) && magics_ok(true),
        res is Some ==> res->0.wf(),
        res is Some ==> res->0@.bishop.table.len() == 5248 && res->0@.rook.table.len() == 102400,
{
    proof {
        lemma_table_size(false);
        lemma_table_size(true);
    }
    let bishop = match init_bishop() {
        Some(table) => table,
        None => {
            return None;
        },
    };
    let rook = match init_rook() {
        Some(table) => table,
        None => {
            return None;
        },
    };
    let mut empty_board: Vec<u64> = Vec::new();
    let mut i: usize = 0;
    while i < 384
        invariant
            i <= 384,
            empty_board.len() == i,
            forall|j: int| 0 <= j < i ==> empty_board[j] == 0,
        decreases 384 - i,
    {
        empty_board.push(0);
        i = i + 1;
    }
    let mut sq: u8 = 0;
    while sq < 64
        invariant
            sq <= 64,
            bishop.wf(false),
            rook.wf(true),
            empty_board_filled(empty_board@, sq as int),
        decreases 64 - sq,
    {
        let bb = bb_from_sq(sq);
        let knight = calc_knight_attacks(bb);
        let diagonals = bishop.lookup(false, sq, 0);
        let straights = rook.lookup(true, sq, 0);
        let king = calc_king_attacks(bb);
        let ghost before = empty_board@;
        empty_board.set(empty_board_index(Piece::Knight, sq), knight);
        empty_board.set(empty_board_index(Piece::Bishop, sq), diagonals);
        empty_board.set(empty_board_index(Piece::Rook, sq), straights);
        empty_board.set(empty_board_index(Piece::Queen, sq), straights | diagonals);
        empty_board.set(empty_board_index(Piece::King, sq), king);
        proof {
            assert forall|p: int, s: int, t: int| 0 <= p < 6 && 0 <= s < 64 implies #[trigger] bb_has(
                empty_board@[64 * p + s],
                t,
            ) == (s < sq + 1 && empty_reach(piece_of_number(p), s, t)) by {
                assert(bb_has(before[64 * p + s], t) == (s < sq && empty_reach(
                    piece_of_number(p),
                    s,
                    t,
                )));
                if s == sq {
                    if p == 1 {
                        assert(knights_attack(bb, t) == knight_reach(s, t)) by {
                            if knight_reach(s, t) {
                                assert(bb_has(bb, s) && knight_reach(s, t));
                            }
                        }
                    }
                    if p == 5 {
                        assert(kings_attack(bb, t) == king_reach(s, t)) by {
                            if king_reach(s, t) {
                                assert(bb_has(bb, s) && king_reach(s, t));
                            }
                        }
                    }
                }
            }
        }
        sq = sq + 1;
    }
    Some(AttackTables { empty_board, bishop, rook })
}

/// What a piece of kind `piece`, not a pawn, attacks from `sq` on an empty
/// board.
pub fn empty_board_attack(tables: &AttackTables, piece: Piece, sq: u8) -> (attack: u64)
    requires
        tables.wf(),
        piece != Piece::Pawn,
        piece != Piece::NoPiece,
        sq < 64,
    ensures
        forall|t: int| bb_has(attack, t) == empty_reach(piece, sq as int, t),
{
    let index = empty_board_index(piece, sq);
    let attack = tables.empty_board[index];
    proof {
        assert forall|t: int| bb_has(attack, t) == empty_reach(piece, sq as int, t) by {
            assert(bb_has(tables@.empty_board[64 * piece.number() + sq], t) == empty_reach(
                piece_of_number(piece.number()),
                sq as int,
                t,
            ));
        }
    }
    attack
}

/// What a knight on `sq` attacks.
pub fn knight_attacks_from(tables: &AttackTables, sq: u8) -> (attack: u64)
    requires
        tables.wf(),
        sq < 64,
    ensures
        forall|t: int| bb_has(attack, t) == knight_reach(sq as int, t),
{
    empty_board_attack(tables, Piece::Knight, sq)
}

/// What a king on `sq` attacks.
pub fn king_attacks_from(tables: &AttackTables, sq: u8) -> (attack: u64)
    requires
        tables.wf(),
        sq < 64,
    ensures
        forall|t: int| bb_has(attack, t) == king_reach(sq as int, t),
{
    empty_board_attack(tables, Piece::King, sq)
}

/// What the one knight of `knight` attacks.
pub fn knight_attacks(tables: &AttackTables, knight: u64) -> (attack: u64)
    requires
        tables.wf(),
        popcount(knight) == 1,
    ensures
        forall|t: int| bb_has(attack, t) == knight_reach(lowest(knight), t),
        forall|t: int| bb_has(attack, t) == knights_attack(knight, t),
{
    proof {
        lemma_popcount_one(knight);
        lemma_lowest(knight);
    }
    let sq = bb_lsb(knight);
    let attack = empty_board_attack(tables, Piece::Knight, sq);
    proof {
        assert forall|t: int| bb_has(attack, t) == knights_attack(knight, t) by {
            if knight_reach(sq as int, t) {
                assert(bb_has(knight, sq as int) && knight_reach(sq as int, t));
            }
        }
    }
    attack
}

/// What a king on the lowest square of `king` attacks.
pub fn king_attacks(tables: &AttackTables, king: u64) -> (attack: u64)
    requires
        tables.wf(),
        king != 0,
    ensures
        forall|t: int| bb_has(attack, t) == king_reach(lowest(king), t),
{
    let sq = bb_lsb(king);
    empty_board_attack(tables, Piece::King, sq)
}

/// Taking one more slider into account adds what that slider attacks.
proof fn lemma_sliders_step(
    rook: bool,
    all: u64,
    rest: u64,
    sq: int,
    rest2: u64,
    occ: u64,
    attacks: u64,
    attack: u64,
)
    requires
        bb_has(rest, sq),
        forall|s: int| bb_has(rest, s) ==> bb_has(all, s),
        forall|s: int| bb_has(rest2, s) == (bb_has(rest, s) && s != sq),
        forall|t: int| bb_has(attacks, t) == sliders_attack(rook, all & !rest, occ, t),
        forall|t: int| bb_has(attack, t) == slider_reach(rook, sq, occ, t),
    ensures
        forall|t: int| bb_has(attacks | attack, t) == sliders_attack(rook, all & !rest2, occ, t),
{
    assert forall|t: int|
        bb_has(attacks | attack, t) == sliders_attack(rook, all & !rest2, occ, t) by {
        if sliders_attack(rook, all & !rest2, occ, t) {
            let s = choose|s: int| #[trigger]
                bb_has(all & !rest2, s) && slider_reach(rook, s, occ, t);
            if s != sq {
                assert(bb_has(all & !rest, s));
            }
        }
        if bb_has(attacks, t) {
            let s = choose|s: int| #[trigger]
                bb_has(all & !rest, s) && slider_reach(rook, s, occ, t);
            assert(bb_has(all & !rest2, s));
        }
        if bb_has(attack, t) {
            assert(bb_has(all & !rest2, sq));
        }
    }
}

/// What the sliders of `pieces`, all rooks (`rook` true) or all bishops,
/// attack when `occupancy` holds the occupied squares.
fn slider_attacks(table: &SliderTable, rook: bool, pieces: u64, occupancy: u64) -> (attacks: u64)
    requires
        table.wf(rook),
    ensures
        forall|t: int| bb_has(attacks, t) == sliders_attack(rook, pieces, occupancy, t),
{
    let mut attacks: u64 = 0;
    let mut rest = pieces;
    proof {
        assert forall|t: int| bb_has(attacks, t) == sliders_attack(
            rook,
            pieces & !rest,
            occupancy,
            t,
        ) by {}
    }
    while rest != 0
        invariant
            table.wf(rook),
            forall|s: int| bb_has(rest, s) ==> bb_has(pieces, s),
            forall|t: int|
                bb_has(attacks, t) == sliders_attack(rook, pieces & !rest, occupancy, t),
        decreases popcount(rest),
    {
        let ghost before = rest;
        let sq = bb_pop(&mut rest);
        let attack = table.lookup(rook, sq, occupancy);
        proof {
            lemma_sliders_step(rook, pieces, before, sq as int, rest, occupancy, attacks, attack);
        }
        attacks = attacks | attack;
    }
    proof {
        assert forall|t: int| bb_has(attacks, t) == sliders_attack(rook, pieces, occupancy, t) by {
            if sliders_attack(rook, pieces, occupancy, t) {
                let s = choose|s: int| #[trigger]
                    bb_has(pieces, s) && slider_reach(rook, s, occupancy, t);
                assert(bb_has(pieces & !rest, s));
            }
            if bb_has(attacks, t) {
                let s = choose|s: int| #[trigger]
                    bb_has(pieces & !rest, s) && slider_reach(rook, s, occupancy, t);
                assert(bb_has(pieces, s));
            }
        }
    }
    attacks
}

/// What the bishops of `bishops` attack when `occupancy` holds the occupied
/// squares.
pub fn bishop_attacks(tables: &AttackTables, bishops: u64, occupancy: u64) -> (attacks: u64)
    requires
        tables.wf(),
    ensures
        forall|t: int| bb_has(attacks, t) == bishops_attack(bishops, occupancy, t),
{
    let attacks = slider_attacks(&tables.bishop, false, bishops, occupancy);
    proof {
        assert forall|t: int| bb_has(attacks, t) == bishops_attack(bishops, occupancy, t) by {
            if bishops_attack(bishops, occupancy, t) {
                let s = choose|s: int| #[trigger]
                    bb_has(bishops, s) && bishop_reach(s, occupancy, t);
                assert(bb_has(bishops, s) && slider_reach(false, s, occupancy, t));
            }
            if sliders_attack(false, bishops, occupancy, t) {
                let s = choose|s: int| #[trigger]
                    bb_has(bishops, s) && slider_reach(false, s, occupancy, t);
                assert(bb_has(bishops, s) && bishop_reach(s, occupancy, t));
            }
        }
    }
    attacks
}

/// What the rooks of `rooks` attack when `occupancy` holds the occupied
/// squares.
pub fn rook_attacks(tables: &AttackTables, rooks: u64, occupancy: u64) -> (attacks: u64)
    requires
        tables.wf(),
    ensures
        forall|t: int| bb_has(attacks, t) == rooks_attack(rooks, occupancy, t),
{
    let attacks = slider_attacks(&tables.rook, true, rooks, occupancy);
    proof {
        assert forall|t: int| bb_has(attacks, t) == rooks_attack(rooks, occupancy, t) by {
            if rooks_attack(rooks, occupancy, t) {
                let s = choose|s: int| #[trigger] bb_has(rooks, s) && rook_reach(s, occupancy, t);
                assert(bb_has(rooks, s) && slider_reach(true, s, occupancy, t));
            }
            if sliders_attack(true, rooks, occupancy, t) {
                let s = choose|s: int| #[trigger]
                    bb_has(rooks, s) && slider_reach(true, s, occupancy, t);
                assert(bb_has(rooks, s) && rook_reach(s, occupancy, t));
            }
        }
    }
    attacks
}

/// What the queens of `queens` attack when `occupancy` holds the occupied
/// squares: what rooks and bishops on their squares attack.
pub fn queen_attacks(tables: &AttackTables, queens: u64, occupancy: u64) -> (attacks: u64)
    requires
        tables.wf(),
    ensures
        forall|t: int| bb_has(attacks, t) == queens_attack(queens, occupancy, t),
        forall|t: int|
            bb_has(attacks, t) == (rooks_attack(queens, occupancy, t) || bishops_attack(
                queens,
                occupancy,
                t,
            )),
{
    let attacks = rook_attacks(tables, queens, occupancy) | bishop_attacks(
        tables,
        queens,
        occupancy,
    );
    proof {
        assert forall|t: int| bb_has(attacks, t) == queens_attack(queens, occupancy, t) by {
            lemma_queens_attack(queens, occupancy, t);
        }
    }
    attacks
}

/// A queen attacks what a rook or a bishop on her square attacks.
pub proof fn lemma_queens_attack(queens: u64, occ: u64, t: int)
    ensures
        queens_attack(queens, occ, t) == (rooks_attack(queens, occ, t) || bishops_attack(
            queens,
            occ,
            t,
        )),
{
    if queens_attack(queens, occ, t) {
        let s = choose|s: int| #[trigger] bb_has(queens, s) && queen_reach(s, occ, t);
        if rook_reach(s, occ, t) {
            assert(bb_has(queens, s) && rook_reach(s, occ, t));
        } else {
            assert(bb_has(queens, s) && bishop_reach(s, occ, t));
        }
    }
    if rooks_attack(queens, occ, t) {
        let s = choose|s: int| #[trigger] bb_has(queens, s) && rook_reach(s, occ, t);
        assert(bb_has(queens, s) && queen_reach(s, occ, t));
    }
    if bishops_attack(queens, occ, t) {
        let s = choose|s: int| #[trigger] bb_has(queens, s) && bishop_reach(s, occ, t);
        assert(bb_has(queens, s) && queen_reach(s, occ, t));
    }
}

/// The attack set of queens is the union of the attack sets of rooks and of
/// bishops on the same squares, bit for bit.
pub proof fn lemma_queen_is_rook_or_bishop(
    pieces: u64,
    occ: u64,
    queen: u64,
    rook: u64,
    bishop: u64,
)
    requires
        forall|t: int| bb_has(queen, t) == queens_attack(pieces, occ, t),
        forall|t: int| bb_has(rook, t) == rooks_attack(pieces, occ, t),
        forall|t: int| bb_has(bishop, t) == bishops_attack(pieces, occ, t),
    ensures
        queen == rook | bishop,
{
    assert forall|t: int| 0 <= t < 64 implies bb_has(queen, t) == bb_has(rook | bishop, t) by {
        lemma_queens_attack(pieces, occ, t);
    }
    lemma_ext(queen, rook | bishop);
}

/// What the pieces of a side attack, from the bitboards of its pieces.
pub proof fn lemma_attacked_by(
    b: Board,
    color: Color,
    pawns: u64,
    knights: u64,
    bishops: u64,
    rooks: u64,
    queens: u64,
    king: u64,
    t: int,
)
    requires
        b.wf(),
        color != Color::NoColor,
        b.one_king(color),
        forall|s: int| bb_has(pawns, s) == b.holds(s, Piece::Pawn, color),
        forall|s: int| bb_has(knights, s) == b.holds(s, Piece::Knight, color),
        forall|s: int| bb_has(bishops, s) == b.holds(s, Piece::Bishop, color),
        forall|s: int| bb_has(rooks, s) == b.holds(s, Piece::Rook, color),
        forall|s: int| bb_has(queens, s) == b.holds(s, Piece::Queen, color),
        forall|s: int| bb_has(king, s) == b.holds(s, Piece::King, color),
    ensures
        b.attacked_by(color, t) == (pawns_attack(pawns, color, t) || knights_attack(knights, t)
            || bishops_attack(bishops, b.occ(), t) || rooks_attack(rooks, b.occ(), t)
            || queens_attack(queens, b.occ(), t) || king_reach(lowest(king), t)),
        king != 0,
        lowest(king) == b.king_sq(color),
{
    let k = b.king_sq(color);
    assert(b.holds(k, Piece::King, color));
    assert(bb_has(king, k));
    lemma_lowest(king);
    assert(b.holds(lowest(king), Piece::King, color));
    let occ = b.occ();
    if b.attacked_by(color, t) {
        let s = choose|s: int| #[trigger] b.owned(s, color) && b.attacks(s, t);
        match b.piece[s] {
            Piece::Pawn => {
                assert(bb_has(pawns, s) && pawn_reach(s, color, t));
            },
            Piece::Knight => {
                assert(bb_has(knights, s) && knight_reach(s, t));
            },
            Piece::Bishop => {
                assert(bb_has(bishops, s) && bishop_reach(s, occ, t));
            },
            Piece::Rook => {
                assert(bb_has(rooks, s) && rook_reach(s, occ, t));
            },
            Piece::Queen => {
                assert(bb_has(queens, s) && queen_reach(s, occ, t));
            },
            Piece::King => {
                assert(b.holds(s, Piece::King, color));
                assert(s == k);
            },
            Piece::NoPiece => {},
        }
    }
    if pawns_attack(pawns, color, t) {
        let s = choose|s: int| #[trigger] bb_has(pawns, s) && pawn_reach(s, color, t);
        assert(b.owned(s, color) && b.attacks(s, t));
    }
    if knights_attack(knights, t) {
        let s = choose|s: int| #[trigger] bb_has(knights, s) && knight_reach(s, t);
        assert(b.owned(s, color) && b.attacks(s, t));
    }
    if bishops_attack(bishops, occ, t) {
        let s = choose|s: int| #[trigger] bb_has(bishops, s) && bishop_reach(s, occ, t);
        assert(b.owned(s, color) && b.attacks(s, t));
    }
    if rooks_attack(rooks, occ, t) {
        let s = choose|s: int| #[trigger] bb_has(rooks, s) && rook_reach(s, occ, t);
        assert(b.owned(s, color) && b.attacks(s, t));
    }
    if queens_attack(queens, occ, t) {
        let s = choose|s: int| #[trigger] bb_has(queens, s) && queen_reach(s, occ, t);
        assert(b.owned(s, color) && b.attacks(s, t));
    }
    if king_reach(lowest(king), t) {
        assert(b.owned(k, color) && b.attacks(k, t));
    }
}

/// The squares that the pieces of `attacker` attack in `position`.
pub fn all_attacks(tables: &AttackTables, position: &Position, attacker: Color) -> (attacks: u64)
    requires
        tables.wf(),
        position.wf(),
        attacker != Color::NoColor,
        position@.one_king(attacker),
    ensures
        forall|t: int| bb_has(attacks, t) == position@.attacked_by(attacker, t),
{
    let color = attacker;
    let occupancy = position.occupancy();
    let pawns = position.pawns(color);
    let knights = position.knights(color);
    let bishops = position.bishops(color);
    let rooks = position.rooks(color);
    let queens = position.queens(color);
    let king = position.king(color);
    proof {
        position.lemma_view();
        lemma_attacked_by(position@, color, pawns, knights, bishops, rooks, queens, king, 0);
    }
    let mut attacks: u64 = 0;
    attacks |= pawn_attacks(pawns, color);
    attacks |= calc_knight_attacks(knights);
    attacks |= bishop_attacks(tables, bishops, occupancy);
    attacks |= rook_attacks(tables, rooks, occupancy);
    attacks |= queen_attacks(tables, queens, occupancy);
    attacks |= king_attacks(tables, king);
    proof {
        assert forall|t: int| bb_has(attacks, t) == position@.attacked_by(attacker, t) by {
            lemma_attacked_by(position@, color, pawns, knights, bishops, rooks, queens, king, t);
        }
    }
    attacks
}

} // verus!
