//! Squares of the board, numbered 0 (a1) to 63 (h8), rank by rank.

use vstd::prelude::*;

verus! {

/// The squares by name; `Squares::E1 as u8` is the square's number.
#[derive(Clone, Copy, PartialEq, Eq, Structural, Debug)]
pub enum Squares {
    A1, B1, C1, D1, E1, F1, G1, H1,
    A2, B2, C2, D2, E2, F2, G2, H2,
    A3, B3, C3, D3, E3, F3, G3, H3,
    A4, B4, C4, D4, E4, F4, G4, H4,
    A5, B5, C5, D5, E5, F5, G5, H5,
    A6, B6, C6, D6, E6, F6, G6, H6,
    A7, B7, C7, D7, E7, F7, G7, H7,
    A8, B8, C8, D8, E8, F8, G8, H8,
}

/// Number of squares on the board.
pub const NUM_SQUARES: usize = 64;

/// The value that stands for "no square".
pub const NO_SQUARE: u8 = 255;

/// The square on rank `r` and file `f`.
pub open spec fn sq_at(r: int, f: int) -> int {
    8 * r + f
}

/// Rank and file both lie on the board.
pub open spec fn on_board(r: int, f: int) -> bool {
    0 <= r < 8 && 0 <= f < 8
}

/// Rank of a square, 0 for the first rank.
pub open spec fn rank(sq: int) -> int {
    sq / 8
}

/// File of a square, 0 for the a-file.
pub open spec fn file(sq: int) -> int {
    sq % 8
}

/// A square is the square at its rank and file, and the square at a rank
/// and file on the board has that rank and that file.
pub proof fn lemma_coordinates(r: int, f: int)
    requires
        on_board(r, f),
    ensures
        0 <= sq_at(r, f) < 64,
        rank(sq_at(r, f)) == r,
        file(sq_at(r, f)) == f,
{
}

/// Rank and file of a square of the board lie on the board.
pub proof fn lemma_square(s: int)
    requires
        0 <= s < 64,
    ensures
        on_board(rank(s), file(s)),
        sq_at(rank(s), file(s)) == s,
{
}

/// Eight squares further is the same file, one rank up.
pub proof fn lemma_rank_up(s: int)
    ensures
        rank(s + 8) == rank(s) + 1,
        file(s + 8) == file(s),
        rank(s - 8) == rank(s) - 1,
        file(s - 8) == file(s),
        rank(s + 16) == rank(s) + 2,
        file(s + 16) == file(s),
        rank(s - 16) == rank(s) - 2,
        file(s - 16) == file(s),
{
}

/// One square further is the next file of the same rank, unless the
/// square is on the h-file.
pub proof fn lemma_file_up(s: int)
    ensures
        file(s) != 7 ==> file(s + 1) == file(s) + 1 && rank(s + 1) == rank(s),
        file(s) != 0 ==> file(s - 1) == file(s) - 1 && rank(s - 1) == rank(s),
        file(s) < 6 ==> file(s + 2) == file(s) + 2 && rank(s + 2) == rank(s),
        file(s) >= 2 ==> file(s - 2) == file(s) - 2 && rank(s - 2) == rank(s),
{
}

/// Rank of `sq`: `sq >> 3`.
pub fn rank_of(sq: u8) -> (r: u8)
    ensures
        r == rank(sq as int),
        r < 32,
        sq < 64 ==> r < 8,
{
    assert(sq >> 3 == sq / 8) by (bit_vector);
    sq >> 3
}

/// File of `sq`: `sq & 7`.
pub fn file_of(sq: u8) -> (f: u8)
    ensures
        f == file(sq as int),
        f < 8,
{
    assert(sq & 7 == sq % 8) by (bit_vector);
    sq & 7
}

/// The square on rank `rank` and file `file`.
pub fn make_sq(rank: u8, file: u8) -> (sq: u8)
    requires
        rank < 8,
        file < 8,
    ensures
        sq == sq_at(rank as int, file as int),
        sq < 64,
        self::rank(sq as int) == rank,
        self::file(sq as int) == file,
{
    (rank * 8) + file
}

/// The text of a square: `-` for no square, else the file's letter and the
/// rank's digit, as in `e4`.
pub open spec fn sq_text(sq: int) -> Seq<char> {
    if sq == NO_SQUARE {
        seq!['-']
    } else {
        seq![(file(sq) + 'a' as u8) as char, (rank(sq) + '1' as u8) as char]
    }
}

/// Appends the text of a square, or `-` for `NO_SQUARE`, to `s`.
pub fn push_square(s: &mut String, sq: u8)
    requires
        sq < 64 || sq == NO_SQUARE,
    ensures
        final(s)@ == old(s)@ + sq_text(sq as int),
{
    if sq == NO_SQUARE {
        s.push('-');
        assert(s@ =~= old(s)@ + sq_text(sq as int));
        return;
    }
    let rank = rank_of(sq);
    let file = file_of(sq);
    s.push((file + ('a' as u8)) as char);
    s.push((rank + ('1' as u8)) as char);
    assert(s@ =~= old(s)@ + sq_text(sq as int));
}

/// The text of a square, or `-` for `NO_SQUARE`.
pub fn sq_to_str(sq: u8) -> (s: String)
    requires
        sq < 64 || sq == NO_SQUARE,
    ensures
        s@ == sq_text(sq as int),
{
    let mut s = String::new();
    push_square(&mut s, sq);
    assert(s@ =~= sq_text(sq as int));
    s
}

} // verus!
