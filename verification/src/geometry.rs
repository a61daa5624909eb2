//! The rules of movement as predicates on squares: which squares a piece
//! on a square reaches, what lies between two squares, what lies on the
//! line through them.

use vstd::prelude::*;
use crate::bits::bb_has;
use crate::square::{rank, file, sq_at};
use crate::things::Color;

verus! {

/// Absolute value.
pub open spec fn abs(x: int) -> int {
    if x < 0 {
        -x
    } else {
        x
    }
}

/// Sign: -1, 0 or 1.
pub open spec fn sgn(x: int) -> int {
    if x < 0 {
        -1
    } else if x > 0 {
        1
    } else {
        0
    }
}

/// `j` steps in the direction `d`, which is -1, 0 or 1.
pub open spec fn scale(j: int, d: int) -> int {
    if d < 0 {
        -j
    } else if d > 0 {
        j
    } else {
        0
    }
}

/// Number of king steps from `a` to `b`.
pub open spec fn dist(a: int, b: int) -> int {
    let dr = abs(rank(b) - rank(a));
    let df = abs(file(b) - file(a));
    if dr > df {
        dr
    } else {
        df
    }
}

/// Rank direction from `a` towards `b`.
pub open spec fn dir_r(a: int, b: int) -> int {
    sgn(rank(b) - rank(a))
}

/// File direction from `a` towards `b`.
pub open spec fn dir_f(a: int, b: int) -> int {
    sgn(file(b) - file(a))
}

/// The square `j` steps from `s` in the direction `(dr, df)`.
pub open spec fn walk(s: int, dr: int, df: int, j: int) -> int {
    sq_at(rank(s) + scale(j, dr), file(s) + scale(j, df))
}

/// Two different squares on one rank or one file.
pub open spec fn straight(a: int, b: int) -> bool {
    &&& 0 <= a < 64
    &&& 0 <= b < 64
    &&& a != b
    &&& (rank(a) == rank(b) || file(a) == file(b))
}

/// Two different squares on one diagonal.
pub open spec fn diagonal(a: int, b: int) -> bool {
    &&& 0 <= a < 64
    &&& 0 <= b < 64
    &&& a != b
    &&& abs(rank(b) - rank(a)) == abs(file(b) - file(a))
}

/// Two different squares on one rank, file or diagonal.
pub open spec fn aligned(a: int, b: int) -> bool {
    straight(a, b) || diagonal(a, b)
}

/// No square strictly between `a` and `b`, on the line from `a` to `b`, is
/// in `occ`.
pub open spec fn clear(a: int, b: int, occ: u64) -> bool {
    forall|j: int|
        1 <= j < dist(a, b) ==> !bb_has(occ, #[trigger] walk(a, dir_r(a, b), dir_f(a, b), j))
}

/// A rook on `s` attacks `t` when `occ` holds the occupied squares: the
/// two share a rank or file and nothing stands strictly between them.
pub open spec fn rook_reach(s: int, occ: u64, t: int) -> bool {
    straight(s, t) && clear(s, t, occ)
}

/// A bishop on `s` attacks `t` when `occ` holds the occupied squares.
pub open spec fn bishop_reach(s: int, occ: u64, t: int) -> bool {
    diagonal(s, t) && clear(s, t, occ)
}

/// A queen on `s` attacks `t` when `occ` holds the occupied squares.
pub open spec fn queen_reach(s: int, occ: u64, t: int) -> bool {
    rook_reach(s, occ, t) || bishop_reach(s, occ, t)
}

/// A knight on `s` attacks `t`.
pub open spec fn knight_reach(s: int, t: int) -> bool {
    &&& 0 <= s < 64
    &&& 0 <= t < 64
    &&& {
        let dr = abs(rank(t) - rank(s));
        let df = abs(file(t) - file(s));
        (dr == 1 && df == 2) || (dr == 2 && df == 1)
    }
}

/// A king on `s` attacks `t`.
pub open spec fn king_reach(s: int, t: int) -> bool {
    &&& 0 <= s < 64
    &&& 0 <= t < 64
    &&& dist(s, t) == 1
}

/// A pawn of `color` on `s` attacks `t`: one rank forward, one file aside.
pub open spec fn pawn_reach(s: int, color: Color, t: int) -> bool {
    &&& 0 <= s < 64
    &&& 0 <= t < 64
    &&& abs(file(t) - file(s)) == 1
    &&& match color {
        Color::White => rank(t) == rank(s) + 1,
        Color::Black => rank(t) == rank(s) - 1,
        Color::NoColor => false,
    }
}

/// Square `u` lies strictly between `a` and `b` on their common line.
pub open spec fn between(a: int, b: int, u: int) -> bool {
    &&& aligned(a, b)
    &&& aligned(a, u)
    &&& dir_r(a, u) == dir_r(a, b)
    &&& dir_f(a, u) == dir_f(a, b)
    &&& dist(a, u) < dist(a, b)
}

/// Square `u` lies on the line through `a` and `b`, which share a rank,
/// file or diagonal; the line runs from edge to edge and holds both.
pub open spec fn on_line(a: int, b: int, u: int) -> bool {
    &&& aligned(a, b)
    &&& 0 <= u < 64
    &&& if rank(a) == rank(b) {
        rank(u) == rank(a)
    } else if file(a) == file(b) {
        file(u) == file(a)
    } else if rank(b) - rank(a) == file(b) - file(a) {
        rank(u) - rank(a) == file(u) - file(a)
    } else {
        rank(u) - rank(a) == file(a) - file(u)
    }
}

/// A square aligned with `a` is the square `dist` steps from `a` in its
/// direction, and the squares on the way are strictly between the two.
pub proof fn lemma_walk_to(a: int, b: int)
    requires
        aligned(a, b),
    ensures
        walk(a, dir_r(a, b), dir_f(a, b), dist(a, b)) == b,
        1 <= dist(a, b) <= 7,
        forall|j: int|
            1 <= j < dist(a, b) ==> between(a, b, #[trigger] walk(a, dir_r(a, b), dir_f(a, b), j)),
{
    let dr = dir_r(a, b);
    let df = dir_f(a, b);
    assert forall|j: int| 1 <= j < dist(a, b) implies between(
        a,
        b,
        #[trigger] walk(a, dr, df, j),
    ) by {
        crate::square::lemma_coordinates(rank(a) + scale(j, dr), file(a) + scale(j, df));
    }
}

/// A square strictly between `a` and `b` is a step of the walk from `a` to
/// `b`.
pub proof fn lemma_between_is_walk(a: int, b: int, u: int)
    requires
        between(a, b, u),
    ensures
        u == walk(a, dir_r(a, b), dir_f(a, b), dist(a, u)),
        1 <= dist(a, u) < dist(a, b),
{
    lemma_walk_to(a, u);
}

/// Nothing between two squares stands in the way exactly when the walk from
/// one to the other is clear.
pub proof fn lemma_clear_between(a: int, b: int, occ: u64)
    requires
        aligned(a, b),
    ensures
        clear(a, b, occ) <==> forall|u: int| between(a, b, u) ==> !bb_has(occ, u),
{
    lemma_walk_to(a, b);
    if clear(a, b, occ) {
        assert forall|u: int| between(a, b, u) implies !bb_has(occ, u) by {
            lemma_between_is_walk(a, b, u);
        }
    }
}

/// Being strictly between two squares does not depend on the end one starts
/// from.
pub proof fn lemma_between_symmetric(a: int, b: int, u: int)
    ensures
        between(a, b, u) == between(b, a, u),
{
}

/// Sliding attacks go both ways: `s` reaches `t` exactly when `t` reaches
/// `s`.
pub proof fn lemma_reach_symmetric(s: int, occ: u64, t: int)
    ensures
        rook_reach(s, occ, t) == rook_reach(t, occ, s),
        bishop_reach(s, occ, t) == bishop_reach(t, occ, s),
{
    if aligned(s, t) {
        lemma_clear_between(s, t, occ);
        lemma_clear_between(t, s, occ);
        assert forall|u: int| between(s, t, u) == between(t, s, u) by {
            lemma_between_symmetric(s, t, u);
        }
    }
}

/// Only what stands strictly between two squares matters for a sliding
/// attack from one to the other.
pub proof fn lemma_clear_depends_on_between(a: int, b: int, occ1: u64, occ2: u64)
    requires
        aligned(a, b),
        forall|u: int| between(a, b, u) ==> bb_has(occ1, u) == bb_has(occ2, u),
    ensures
        clear(a, b, occ1) == clear(a, b, occ2),
{
    lemma_clear_between(a, b, occ1);
    lemma_clear_between(a, b, occ2);
}

/// With a single blocker `b`, a slider on `a` reaches `u` exactly when the
/// two lie on a line of the slider's kind and `b` is not strictly between.
pub proof fn lemma_reach_single_blocker(a: int, b: int, u: int, occ: u64)
    requires
        0 <= b < 64,
        forall|x: int| bb_has(occ, x) == (x == b),
    ensures
        rook_reach(a, occ, u) == (straight(a, u) && !between(a, u, b)),
        bishop_reach(a, occ, u) == (diagonal(a, u) && !between(a, u, b)),
{
    if aligned(a, u) {
        lemma_clear_between(a, u, occ);
        assert(bb_has(occ, b));
        if !between(a, u, b) {
            assert forall|x: int| between(a, u, x) implies !bb_has(occ, x) by {}
        }
    }
}

/// On an empty board a slider reaches every square on its lines.
pub proof fn lemma_reach_empty(a: int, u: int, occ: u64)
    requires
        forall|x: int| !bb_has(occ, x),
    ensures
        rook_reach(a, occ, u) == straight(a, u),
        bishop_reach(a, occ, u) == diagonal(a, u),
{
}

/// The squares strictly between `a` and `b` are those that a slider on `a`
/// stopped by `b` and a slider on `b` stopped by `a` both reach.
pub proof fn lemma_between_by_sliders(a: int, b: int, u: int)
    requires
        0 <= a < 64,
        0 <= b < 64,
    ensures
        straight(a, b) ==> between(a, b, u) == (straight(a, u) && !between(a, u, b) && straight(
            b,
            u,
        ) && !between(b, u, a)),
        diagonal(a, b) ==> between(a, b, u) == (diagonal(a, u) && !between(a, u, b) && diagonal(
            b,
            u,
        ) && !between(b, u, a)),
        !aligned(a, b) ==> !between(a, b, u),
{
    crate::square::lemma_square(a);
    crate::square::lemma_square(b);
    if 0 <= u < 64 {
        crate::square::lemma_square(u);
    }
}

/// The line through `a` and `b` holds the two and what sliders on both
/// reach on an empty board.
pub proof fn lemma_line_by_sliders(a: int, b: int, u: int)
    requires
        0 <= a < 64,
        0 <= b < 64,
    ensures
        straight(a, b) ==> on_line(a, b, u) == (u == a || u == b || (straight(a, u) && straight(
            b,
            u,
        ))),
        diagonal(a, b) ==> on_line(a, b, u) == (u == a || u == b || (diagonal(a, u) && diagonal(
            b,
            u,
        ))),
        !aligned(a, b) ==> !on_line(a, b, u),
{
    crate::square::lemma_square(a);
    crate::square::lemma_square(b);
    if 0 <= u < 64 {
        crate::square::lemma_square(u);
    }
}

/// A sliding attack holds the nearest blocker in each direction and no
/// square beyond it: where `blocker` is occupied and nothing stands between
/// it and `s`, a slider on `s` whose line it is on reaches `blocker`, and
/// reaches no square `beyond` that has `blocker` between itself and `s`.
pub proof fn lemma_attack_stops_at_blocker(s: int, occ: u64, blocker: int, beyond: int)
    requires
        aligned(s, blocker),
        bb_has(occ, blocker),
        clear(s, blocker, occ),
        between(s, beyond, blocker),
    ensures
        straight(s, blocker) ==> rook_reach(s, occ, blocker),
        diagonal(s, blocker) ==> bishop_reach(s, occ, blocker),
        queen_reach(s, occ, blocker),
        !rook_reach(s, occ, beyond),
        !bishop_reach(s, occ, beyond),
        !queen_reach(s, occ, beyond),
{
    lemma_clear_between(s, beyond, occ);
}

} // verus!
