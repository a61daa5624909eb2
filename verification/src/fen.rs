//! Positions as text: six fields separated by blanks, with the pieces rank
//! by rank from the eighth, the side to move, the castle rights, the en
//! passant square and the two counters.

use vstd::prelude::*;
use crate::position::{Position, Board};
use crate::square::{NO_SQUARE, make_sq, sq_at, sq_text, push_square, rank, file, lemma_square};
use crate::text::{
    chars_of, find_field_end, field_end, parse_int, int_value, is_digit, digit_value, int_text,
    push_int, lemma_field_ends_at, lemma_int_text,
};
use crate::things::{
    Piece, Color, piece_of_letter, color_of_letter, piece_letter, is_piece_char, piece_from_char,
    color_from_char, piece_to_char, WHITE_OO, WHITE_OOO, BLACK_OO, BLACK_OOO,
    lemma_piece_letter_round_trip,
};

verus! {

/// The board after the pieces of `f[i..]` have been placed on `b`, with
/// the next piece due on square `sq` of rank `rank`: a digit skips that
/// many squares, a slash goes to the start of the rank below, a piece
/// letter puts a piece on the square, which must be on the board and empty.
/// Nothing, where the text asks for anything else.
pub open spec fn placed(f: Seq<char>, i: int, to: int, sq: int, rank: int, b: Board) -> Option<Board>
    decreases to - i,
{
    if i >= to {
        Some(b)
    } else {
        let c = f[i];
        if is_digit(c) {
            if sq + digit_value(c) > 255 {
                None
            } else {
                placed(f, i + 1, to, sq + digit_value(c), rank, b)
            }
        } else if c == '/' {
            if rank <= 0 {
                None
            } else {
                placed(f, i + 1, to, 8 * (rank - 1), rank - 1, b)
            }
        } else if piece_of_letter(c).is_some() && sq < 64 && b.empty(sq) {
            placed(
                f,
                i + 1,
                to,
                sq + 1,
                rank,
                b.put(sq, piece_of_letter(c).unwrap(), color_of_letter(c)),
            )
        } else {
            None
        }
    }
}

/// The side that the field `f[from..to]` names: `w` or `b`, in either case.
pub open spec fn side_of(f: Seq<char>, from: int, to: int) -> Option<Color> {
    if from >= to {
        None
    } else if f[from] == 'w' || f[from] == 'W' {
        Some(Color::White)
    } else if f[from] == 'b' || f[from] == 'B' {
        Some(Color::Black)
    } else {
        None
    }
}

/// The castle rights that `f[i..to]` names, added to `acc`: one bit for
/// each of `K`, `Q`, `k`, `q`, up to the first other character.
pub open spec fn castle_of(f: Seq<char>, i: int, to: int, acc: u8) -> u8
    decreases to - i,
{
    if i >= to {
        acc
    } else if f[i] == 'K' {
        castle_of(f, i + 1, to, acc | WHITE_OO)
    } else if f[i] == 'Q' {
        castle_of(f, i + 1, to, acc | WHITE_OOO)
    } else if f[i] == 'k' {
        castle_of(f, i + 1, to, acc | BLACK_OO)
    } else if f[i] == 'q' {
        castle_of(f, i + 1, to, acc | BLACK_OOO)
    } else {
        acc
    }
}

/// The en passant square that the field `f[from..to]` names: none for a
/// field that starts with `-`, else the square of a file letter and a rank
/// digit.
pub open spec fn ep_of(f: Seq<char>, from: int, to: int) -> Option<u8> {
    if from >= to {
        None
    } else if f[from] == '-' {
        Some(NO_SQUARE)
    } else if from + 1 < to && 'a' <= f[from] && f[from] <= 'h' && '1' <= f[from + 1] && f[from
        + 1] <= '8' {
        Some(sq_at(f[from + 1] as int - '1' as int, f[from] as int - 'a' as int) as u8)
    } else {
        None
    }
}

/// The board that the text `s` describes, or nothing where `s` does not
/// have six fields of the right form.
pub open spec fn fen_board(s: Seq<char>) -> Option<Board> {
    let e0 = field_end(s, 0);
    let e1 = field_end(s, e0 + 1);
    let e2 = field_end(s, e1 + 1);
    let e3 = field_end(s, e2 + 1);
    let e4 = field_end(s, e3 + 1);
    let e5 = field_end(s, e4 + 1);
    if e4 >= s.len() {
        None
    } else {
        let pieces = placed(s, 0, e0, 56, 7, Board::start());
        let side = side_of(s, e0 + 1, e1);
        let castle = castle_of(s, e1 + 1, e2, 0);
        let ep = ep_of(s, e2 + 1, e3);
        let half = int_value(s, e3 + 1, e4);
        let full = int_value(s, e4 + 1, e5);
        if pieces.is_some() && side.is_some() && ep.is_some() && half.is_some() && full.is_some() {
            Some(
                Board {
                    piece: pieces.unwrap().piece,
                    color: pieces.unwrap().color,
                    side: side.unwrap(),
                    castle,
                    ep: ep.unwrap(),
                    half: half.unwrap() as i32,
                    full: full.unwrap() as i32,
                },
            )
        } else {
            None
        }
    }
}

/// The cells of a drawn position: the letter of the piece on each square,
/// a blank for an empty square.
pub open spec fn piece_cells(b: Board) -> Seq<char> {
    Seq::new(64, |s: int| piece_letter(b.piece[s], b.color[s]))
}

/// The digit for a run of `run` empty squares, nothing for no run.
pub open spec fn run_text(run: int) -> Seq<char> {
    if run > 0 {
        seq![(('0' as int + run) as u8) as char]
    } else {
        Seq::<char>::empty()
    }
}

/// The text of the files `f` to `h` of rank `r`, after a run of `run`
/// empty squares: a letter for each piece, a digit for each run of empty
/// squares.
pub open spec fn rank_text(b: Board, r: int, f: int, run: int) -> Seq<char>
    decreases 8 - f,
{
    if f >= 8 {
        run_text(run)
    } else {
        let s = sq_at(r, f);
        if b.piece[s] == Piece::NoPiece {
            rank_text(b, r, f + 1, run + 1)
        } else {
            run_text(run) + seq![piece_letter(b.piece[s], b.color[s])] + rank_text(
                b,
                r,
                f + 1,
                0,
            )
        }
    }
}

/// The text of the ranks `r` down to the first, with a slash after each
/// but the first.
pub open spec fn ranks_text(b: Board, r: int) -> Seq<char>
    decreases r,
{
    if r <= 0 {
        rank_text(b, 0, 0, 0)
    } else {
        rank_text(b, r, 0, 0) + seq!['/'] + ranks_text(b, r - 1)
    }
}

/// The text of the castle rights: `-` for none, else the letters of the
/// rights there are, in the order `KQkq`.
pub open spec fn castle_text(castle: u8) -> Seq<char> {
    if castle == 0 {
        seq!['-']
    } else {
        (if castle & WHITE_OO != 0 {
            seq!['K']
        } else {
            Seq::<char>::empty()
        }) + (if castle & WHITE_OOO != 0 {
            seq!['Q']
        } else {
            Seq::<char>::empty()
        }) + (if castle & BLACK_OO != 0 {
            seq!['k']
        } else {
            Seq::<char>::empty()
        }) + (if castle & BLACK_OOO != 0 {
            seq!['q']
        } else {
            Seq::<char>::empty()
        })
    }
}

/// The text of a board: the six fields, separated by blanks.
pub open spec fn fen_text(b: Board) -> Seq<char> {
    ranks_text(b, 7) + seq![' ', if b.side == Color::White {
        'w'
    } else {
        'b'
    }, ' '] + castle_text(b.castle) + seq![' '] + sq_text(b.ep as int) + seq![' '] + int_text(
        b.half as int,
    ) + seq![' '] + int_text(b.full as int)
}

/// Places the pieces that `chars[0..to]` names on an empty position.
fn parse_pieces(chars: &Vec<char>, to: usize) -> (res: Option<Position>)
    requires
        to <= chars.len(),
    ensures
        match res {
            Some(pos) => pos.wf() && placed(chars@, 0, to as int, 56, 7, Board::start()) == Some(
                pos@,
            ),
            None => placed(chars@, 0, to as int, 56, 7, Board::start()) is None,
        },
{
    let mut pos = Position::new();
    let mut sq: u8 = 56;
    let mut rank: u8 = 7;
    let mut i: usize = 0;
    while i < to
        invariant
            i <= to <= chars.len(),
            pos.wf(),
            rank <= 7,
            placed(chars@, 0, to as int, 56, 7, Board::start()) == placed(
                chars@,
                i as int,
                to as int,
                sq as int,
                rank as int,
                pos@,
            ),
        decreases to - i,
    {
        let c = chars[i];
        if '0' <= c && c <= '9' {
            let skip = (c as u32 - '0' as u32) as u8;
            if sq > 255 - skip {
                return None;
            }
            sq = sq + skip;
        } else if c == '/' {
            if rank == 0 {
                return None;
            }
            rank = rank - 1;
            sq = make_sq(rank, 0);
        } else if is_piece_char(c) && sq < 64 && pos.piece_on(sq) == Piece::NoPiece {
            let piece = piece_from_char(c);
            let color = color_from_char(c);
            pos.put_piece(sq, piece, color);
            sq = sq + 1;
        } else {
            return None;
        }
        i = i + 1;
    }
    Some(pos)
}

/// The side that `chars[from..to]` names.
fn parse_side(chars: &Vec<char>, from: usize, to: usize) -> (side: Option<Color>)
    requires
        from <= chars.len(),
        to <= chars.len(),
    ensures
        side == side_of(chars@, from as int, to as int),
{
    if from >= to {
        return None;
    }
    let c = chars[from];
    if c == 'w' || c == 'W' {
        Some(Color::White)
    } else if c == 'b' || c == 'B' {
        Some(Color::Black)
    } else {
        None
    }
}

/// The castle rights that `chars[from..to]` names.
fn parse_castle(chars: &Vec<char>, from: usize, to: usize) -> (castle: u8)
    requires
        from <= chars.len(),
        to <= chars.len(),
    ensures
        castle == castle_of(chars@, from as int, to as int, 0),
{
    let mut castle: u8 = 0;
    let mut i = from;
    while i < to
        invariant
            from <= i <= chars.len(),
            to <= chars.len(),
            castle_of(chars@, from as int, to as int, 0) == castle_of(
                chars@,
                i as int,
                to as int,
                castle,
            ),
        decreases to - i,
    {
        let c = chars[i];
        if c == 'K' {
            castle = castle | WHITE_OO;
        } else if c == 'Q' {
            castle = castle | WHITE_OOO;
        } else if c == 'k' {
            castle = castle | BLACK_OO;
        } else if c == 'q' {
            castle = castle | BLACK_OOO;
        } else {
            return castle;
        }
        i = i + 1;
    }
    castle
}

/// The en passant square that `chars[from..to]` names.
fn parse_ep(chars: &Vec<char>, from: usize, to: usize) -> (ep: Option<u8>)
    requires
        from <= chars.len(),
        to <= chars.len(),
    ensures
        ep == ep_of(chars@, from as int, to as int),
        ep.is_some() ==> ep.unwrap() < 64 || ep.unwrap() == NO_SQUARE,
{
    if from >= to {
        return None;
    }
    let c = chars[from];
    if c == '-' {
        return Some(NO_SQUARE);
    }
    if from + 1 < to {
        let d = chars[from + 1];
        if 'a' <= c && c <= 'h' && '1' <= d && d <= '8' {
            let ep_file = (c as u32 - 'a' as u32) as u8;
            let ep_rank = (d as u32 - '1' as u32) as u8;
            return Some(make_sq(ep_rank, ep_file));
        }
    }
    None
}

impl Position {
    /// The position that the text `fen` describes, or nothing where the
    /// text does not have six fields of the right form.
    pub fn parse_fen(fen: &str) -> (res: Option<Position>)
        ensures
            match res {
                Some(pos) => pos.wf() && fen_board(fen@) == Some(pos@),
                None => fen_board(fen@) is None,
            },
    {
        let chars = chars_of(fen);
        let n = chars.len();
        let e0 = find_field_end(&chars, 0);
        if e0 >= n {
            return None;
        }
        let e1 = find_field_end(&chars, e0 + 1);
        if e1 >= n {
            return None;
        }
        let e2 = find_field_end(&chars, e1 + 1);
        if e2 >= n {
            return None;
        }
        let e3 = find_field_end(&chars, e2 + 1);
        if e3 >= n {
            return None;
        }
        let e4 = find_field_end(&chars, e3 + 1);
        if e4 >= n {
            return None;
        }
        let e5 = find_field_end(&chars, e4 + 1);
        let mut pos = match parse_pieces(&chars, e0) {
            Some(pos) => pos,
            None => {
                return None;
            },
        };
        let side = match parse_side(&chars, e0 + 1, e1) {
            Some(side) => side,
            None => {
                return None;
            },
        };
        let castle = parse_castle(&chars, e1 + 1, e2);
        let ep = match parse_ep(&chars, e2 + 1, e3) {
            Some(ep) => ep,
            None => {
                return None;
            },
        };
        let half = match parse_int(&chars, e3 + 1, e4) {
            Some(half) => half,
            None => {
                return None;
            },
        };
        let full = match parse_int(&chars, e4 + 1, e5) {
            Some(full) => full,
            None => {
                return None;
            },
        };
        pos.set_state(side, castle, ep, half, full);
        Some(pos)
    }

    /// Sets the position to the one that the text `fen` describes.
    pub fn from_fen(&mut self, fen: &str)
        requires
            fen_board(fen@).is_some(),
        ensures
            final(self).wf(),
            Some(final(self)@) == fen_board(fen@),
    {
        let parsed = Position::parse_fen(fen);
        *self = parsed.unwrap();
    }

    /// Appends the text of rank `rank` to `s`.
    fn push_rank(&self, s: &mut String, rank: u8)
        requires
            self.wf(),
            rank < 8,
        ensures
            final(s)@ == old(s)@ + rank_text(self@, rank as int, 0, 0),
    {
        let ghost b = self@;
        let ghost start = s@;
        let mut empty: u8 = 0;
        let mut file: u8 = 0;
        proof {
            assert(s@ + rank_text(b, rank as int, 0, 0) =~= start + rank_text(b, rank as int, 0, 0));
        }
        while file < 8
            invariant
                file <= 8,
                empty <= file,
                rank < 8,
                self.wf(),
                b == self@,
                s@ + rank_text(b, rank as int, file as int, empty as int) == start + rank_text(
                    b,
                    rank as int,
                    0,
                    0,
                ),
            decreases 8 - file,
        {
            let sq = make_sq(rank, file);
            let piece = self.piece_on(sq);
            let color = self.color_on(sq);
            let ghost at = s@;
            let ghost rest = rank_text(b, rank as int, file as int, empty as int);
            if piece == Piece::NoPiece {
                empty = empty + 1;
            } else {
                if empty > 0 {
                    s.push((('0' as u8) + empty) as char);
                }
                s.push(piece_to_char(piece, color));
                proof {
                    let tail = rank_text(b, rank as int, file + 1, 0);
                    assert(rest == run_text(empty as int) + seq![piece_letter(piece, color)]
                        + tail);
                    assert(s@ =~= at + run_text(empty as int) + seq![piece_letter(piece, color)]);
                    assert(s@ + tail =~= at + rest);
                }
                empty = 0;
            }
            file = file + 1;
        }
        let ghost at = s@;
        if empty > 0 {
            s.push((('0' as u8) + empty) as char);
        }
        proof {
            assert(s@ =~= at + run_text(empty as int));
            assert(rank_text(b, rank as int, 8, empty as int) == run_text(empty as int));
        }
    }

    /// The text of the position.
    pub fn to_fen(&self) -> (s: String)
        requires
            self.wf(),
            self@.side != Color::NoColor,
            self@.ep < 64 || self@.ep == NO_SQUARE,
        ensures
            s@ == fen_text(self@),
    {
        let mut s = String::new();
        let ghost b = self@;
        let mut rank: u8 = 8;
        proof {
            assert(s@ + ranks_text(b, 7) =~= ranks_text(b, 7));
        }
        while rank > 0
            invariant
                rank <= 8,
                self.wf(),
                b == self@,
                rank > 0 ==> s@ + ranks_text(b, rank - 1) == ranks_text(b, 7),
                rank == 0 ==> s@ == ranks_text(b, 7),
            decreases rank,
        {
            rank = rank - 1;
            let ghost at = s@;
            self.push_rank(&mut s, rank);
            if rank != 0 {
                s.push('/');
                proof {
                    assert(s@ + ranks_text(b, rank - 1) =~= at + ranks_text(b, rank as int));
                }
            } else {
                proof {
                    assert(s@ =~= at + ranks_text(b, 0));
                }
            }
        }
        let ghost board = s@;
        s.push(' ');
        s.push(
            if self.us() == Color::White {
                'w'
            } else {
                'b'
            },
        );
        s.push(' ');
        let ghost side = s@;
        let castle = self.castle_rights();
        if castle == 0 {
            s.push('-');
        } else {
            if castle & WHITE_OO != 0 {
                s.push('K');
            }
            if castle & WHITE_OOO != 0 {
                s.push('Q');
            }
            if castle & BLACK_OO != 0 {
                s.push('k');
            }
            if castle & BLACK_OOO != 0 {
                s.push('q');
            }
        }
        proof {
            assert(s@ =~= side + castle_text(castle));
        }
        s.push(' ');
        push_square(&mut s, self.ep_square());
        s.push(' ');
        push_int(&mut s, self.halfmove_clock());
        s.push(' ');
        push_int(&mut s, self.fullmove_number());
        proof {
            assert(s@ =~= fen_text(b));
        }
        s
    }

    /// The position drawn as a board, with the piece letters in the cells,
    /// followed by its text.
    pub fn board_text(&self) -> (s: String)
        requires
            self.wf(),
            self@.side != Color::NoColor,
            self@.ep < 64 || self@.ep == NO_SQUARE,
        ensures
            s@ == crate::text::drawing(piece_cells(self@)) + fen_text(self@),
    {
        let mut cells: Vec<char> = Vec::new();
        let mut sq: u8 = 0;
        while sq < 64
            invariant
                sq <= 64,
                cells.len() == sq,
                forall|s: int|
                    0 <= s < sq ==> cells[s] == piece_letter(self@.piece[s], self@.color[s]),
            decreases 64 - sq,
        {
            cells.push(piece_to_char(self.piece_on(sq), self.color_on(sq)));
            sq = sq + 1;
        }
        proof {
            assert(cells@ =~= piece_cells(self@));
        }
        let mut s = crate::text::draw_board(&cells);
        let fen = self.to_fen();
        s.append(fen.as_str());
        s
    }
}

/// The board `cur` with the pieces that `b` has on rank `r` from file `f`
/// on.
pub open spec fn with_rank(cur: Board, b: Board, r: int, f: int) -> Board
    decreases 8 - f,
{
    if f >= 8 {
        cur
    } else {
        let s = sq_at(r, f);
        with_rank(
            if b.piece[s] == Piece::NoPiece {
                cur
            } else {
                cur.put(s, b.piece[s], b.color[s])
            },
            b,
            r,
            f + 1,
        )
    }
}

/// The board `cur` with the pieces that `b` has on the ranks `r` down to
/// the first.
pub open spec fn with_ranks(cur: Board, b: Board, r: int) -> Board
    decreases r + 1,
{
    if r < 0 {
        cur
    } else {
        with_ranks(with_rank(cur, b, r, 0), b, r - 1)
    }
}

/// Square `u` of the board is empty and has no owner.
pub open spec fn blank(cur: Board, u: int) -> bool {
    cur.piece[u] == Piece::NoPiece && cur.color[u] == Color::NoColor
}

/// `with_rank` changes the squares of rank `r` from file `f` on, which
/// then hold what `b` holds there, and no other square.
proof fn lemma_with_rank(cur: Board, b: Board, r: int, f: int)
    requires
        b.wf(),
        cur.piece.len() == 64,
        cur.color.len() == 64,
        0 <= r < 8,
        0 <= f <= 8,
        forall|u: int| 8 * r + f <= u < 8 * r + 8 ==> blank(cur, u),
    ensures
        with_rank(cur, b, r, f).piece.len() == 64,
        with_rank(cur, b, r, f).color.len() == 64,
        with_rank(cur, b, r, f).side == cur.side,
        forall|u: int|
            0 <= u < 64 ==> #[trigger] with_rank(cur, b, r, f).piece[u] == if 8 * r + f <= u < 8
                * r + 8 {
                b.piece[u]
            } else {
                cur.piece[u]
            },
        forall|u: int|
            0 <= u < 64 ==> #[trigger] with_rank(cur, b, r, f).color[u] == if 8 * r + f <= u < 8
                * r + 8 {
                b.color[u]
            } else {
                cur.color[u]
            },
    decreases 8 - f,
{
    if f < 8 {
        let s = sq_at(r, f);
        let next = if b.piece[s] == Piece::NoPiece {
            cur
        } else {
            cur.put(s, b.piece[s], b.color[s])
        };
        assert((b.piece[s] == Piece::NoPiece) <==> b.color[s] == Color::NoColor);
        assert(blank(cur, s));
        assert forall|u: int| 8 * r + f + 1 <= u < 8 * r + 8 implies blank(next, u) by {
            assert(blank(cur, u));
        }
        lemma_with_rank(next, b, r, f + 1);
    }
}

/// `with_ranks` changes the squares of the ranks `r` down to the first,
/// which then hold what `b` holds there, and no other square.
proof fn lemma_with_ranks(cur: Board, b: Board, r: int)
    requires
        b.wf(),
        cur.piece.len() == 64,
        cur.color.len() == 64,
        -1 <= r < 8,
        forall|u: int| 0 <= u < 8 * r + 8 ==> blank(cur, u),
    ensures
        with_ranks(cur, b, r).piece.len() == 64,
        with_ranks(cur, b, r).color.len() == 64,
        forall|u: int|
            0 <= u < 64 ==> #[trigger] with_ranks(cur, b, r).piece[u] == if u < 8 * r + 8 {
                b.piece[u]
            } else {
                cur.piece[u]
            },
        forall|u: int|
            0 <= u < 64 ==> #[trigger] with_ranks(cur, b, r).color[u] == if u < 8 * r + 8 {
                b.color[u]
            } else {
                cur.color[u]
            },
    decreases r + 1,
{
    if r >= 0 {
        let next = with_rank(cur, b, r, 0);
        lemma_with_rank(cur, b, r, 0);
        assert forall|u: int| 0 <= u < 8 * (r - 1) + 8 implies blank(next, u) by {
            assert(blank(cur, u));
        }
        lemma_with_ranks(next, b, r - 1);
    }
}

/// Reading the text of a rank from file `f` on, after a run of `run` empty
/// squares, places the pieces of that rank and ends behind the rank.
proof fn lemma_rank_read(
    s: Seq<char>,
    i: int,
    to: int,
    b: Board,
    r: int,
    f: int,
    run: int,
    cur: Board,
)
    requires
        b.wf(),
        cur.piece.len() == 64,
        cur.color.len() == 64,
        0 <= r < 8,
        0 <= run <= f <= 8,
        0 <= i,
        i + rank_text(b, r, f, run).len() <= to <= s.len(),
        forall|j: int|
            0 <= j < rank_text(b, r, f, run).len() ==> s[i + j] == rank_text(b, r, f, run)[j],
        forall|u: int| 8 * r + f <= u < 8 * r + 8 ==> blank(cur, u),
    ensures
        placed(s, i, to, 8 * r + f - run, r, cur) == placed(
            s,
            i + rank_text(b, r, f, run).len(),
            to,
            8 * r + 8,
            r,
            with_rank(cur, b, r, f),
        ),
    decreases 8 - f,
{
    let text = rank_text(b, r, f, run);
    let digit = (('0' as int + run) as u8) as char;
    let start = 8 * r + f - run;
    if run > 0 {
        assert(is_digit(digit) && digit_value(digit) == run);
    }
    if f >= 8 {
        assert(with_rank(cur, b, r, f) == cur);
        if run > 0 {
            assert(text =~= seq![digit]);
            assert(s[i + 0] == text[0]);
            assert(s[i] == digit);
            assert(placed(s, i, to, start, r, cur) == placed(s, i + 1, to, start + run, r, cur));
        } else {
            assert(text.len() == 0);
        }
    } else {
        let sq = sq_at(r, f);
        if b.piece[sq] == Piece::NoPiece {
            assert(text == rank_text(b, r, f + 1, run + 1));
            assert(with_rank(cur, b, r, f) == with_rank(cur, b, r, f + 1));
            lemma_rank_read(s, i, to, b, r, f + 1, run + 1, cur);
        } else {
            let letter = piece_letter(b.piece[sq], b.color[sq]);
            let rest = rank_text(b, r, f + 1, 0);
            assert((b.piece[sq] == Piece::NoPiece) <==> b.color[sq] == Color::NoColor);
            lemma_piece_letter_round_trip(b.piece[sq], b.color[sq]);
            assert(text == run_text(run) + seq![letter] + rest);
            let skip = run_text(run).len() as int;
            assert(text.len() == skip + 1 + rest.len());
            assert(s[i + skip] == letter) by {
                assert(text[skip] == letter);
            }
            assert(!is_digit(letter) && letter != '/');
            let next = cur.put(sq, b.piece[sq], b.color[sq]);
            assert(blank(cur, sq));
            assert(cur.empty(sq));
            assert forall|j: int| 0 <= j < rest.len() implies s[i + skip + 1 + j] == rest[j] by {
                assert(text[skip + 1 + j] == rest[j]);
                assert(s[i + (skip + 1 + j)] == text[skip + 1 + j]);
            }
            assert forall|u: int| 8 * r + f + 1 <= u < 8 * r + 8 implies blank(next, u) by {
                assert(blank(cur, u));
            }
            lemma_rank_read(s, i + skip + 1, to, b, r, f + 1, 0, next);
            assert(with_rank(cur, b, r, f) == with_rank(next, b, r, f + 1));
            assert(placed(s, i + skip, to, sq, r, cur) == placed(
                s,
                i + skip + 1,
                to,
                sq + 1,
                r,
                next,
            ));
            if run > 0 {
                assert(skip == 1);
                assert(text[0] == digit);
                assert(s[i + 0] == text[0]);
                assert(s[i] == digit);
                assert(placed(s, i, to, start, r, cur) == placed(
                    s,
                    i + 1,
                    to,
                    start + run,
                    r,
                    cur,
                ));
            } else {
                assert(skip == 0);
            }
        }
    }
}

/// Reading the text of the ranks `r` down to the first places the pieces
/// of those ranks.
proof fn lemma_ranks_read(s: Seq<char>, i: int, b: Board, r: int, cur: Board)
    requires
        b.wf(),
        cur.piece.len() == 64,
        cur.color.len() == 64,
        0 <= r < 8,
        0 <= i,
        i + ranks_text(b, r).len() <= s.len(),
        forall|j: int| 0 <= j < ranks_text(b, r).len() ==> s[i + j] == ranks_text(b, r)[j],
        forall|u: int| 0 <= u < 8 * r + 8 ==> blank(cur, u),
    ensures
        placed(s, i, i + ranks_text(b, r).len(), 8 * r, r, cur) == Some(with_ranks(cur, b, r)),
    decreases r,
{
    let text = ranks_text(b, r);
    let to = i + text.len();
    let first = rank_text(b, r, 0, 0);
    let next = with_rank(cur, b, r, 0);
    lemma_with_rank(cur, b, r, 0);
    assert forall|j: int| 0 <= j < first.len() implies s[i + j] == first[j] by {
        assert(text[j] == first[j]);
    }
    lemma_rank_read(s, i, to, b, r, 0, 0, cur);
    if r > 0 {
        let rest = ranks_text(b, r - 1);
        assert(text == first + seq!['/'] + rest);
        let skip = first.len() as int;
        assert(s[i + skip] == '/') by {
            assert(text[skip] == '/');
        }
        assert forall|j: int| 0 <= j < rest.len() implies s[i + skip + 1 + j] == rest[j] by {
            assert(text[skip + 1 + j] == rest[j]);
            assert(s[i + (skip + 1 + j)] == text[skip + 1 + j]);
        }
        assert forall|u: int| 0 <= u < 8 * (r - 1) + 8 implies blank(next, u) by {
            assert(blank(cur, u));
        }
        lemma_ranks_read(s, i + skip + 1, b, r - 1, next);
        assert(with_ranks(cur, b, r) == with_ranks(next, b, r - 1));
    } else {
        assert(with_ranks(cur, b, 0) == next);
    }
}

/// The text of the ranks holds no blank.
proof fn lemma_rank_text_no_blank(b: Board, r: int, f: int, run: int)
    requires
        b.wf(),
        0 <= r < 8,
        0 <= run <= f <= 8,
    ensures
        forall|j: int|
            0 <= j < rank_text(b, r, f, run).len() ==> #[trigger] rank_text(b, r, f, run)[j]
                != ' ',
    decreases 8 - f,
{
    let text = rank_text(b, r, f, run);
    let digit = (('0' as int + run) as u8) as char;
    if run > 0 {
        assert(digit != ' ');
    }
    if f < 8 {
        let sq = sq_at(r, f);
        if b.piece[sq] == Piece::NoPiece {
            lemma_rank_text_no_blank(b, r, f + 1, run + 1);
            assert(text == rank_text(b, r, f + 1, run + 1));
        } else {
            let letter = piece_letter(b.piece[sq], b.color[sq]);
            let rest = rank_text(b, r, f + 1, 0);
            assert((b.piece[sq] == Piece::NoPiece) <==> b.color[sq] == Color::NoColor);
            assert(letter != ' ');
            lemma_rank_text_no_blank(b, r, f + 1, 0);
            let skip = run_text(run).len() as int;
            assert(text == run_text(run) + seq![letter] + rest);
            assert forall|j: int| 0 <= j < text.len() implies #[trigger] text[j] != ' ' by {
                if j < skip {
                    assert(text[j] == digit);
                } else if j == skip {
                    assert(text[j] == letter);
                } else {
                    assert(text[j] == rest[j - skip - 1]);
                }
            }
        }
    } else {
        assert(text == run_text(run));
        assert forall|j: int| 0 <= j < text.len() implies #[trigger] text[j] != ' ' by {
            assert(run > 0);
            assert(text[j] == digit);
        }
    }
}

/// The text of the ranks holds no blank.
proof fn lemma_ranks_text_no_blank(b: Board, r: int)
    requires
        b.wf(),
        0 <= r < 8,
    ensures
        forall|j: int| 0 <= j < ranks_text(b, r).len() ==> #[trigger] ranks_text(b, r)[j] != ' ',
    decreases r,
{
    let text = ranks_text(b, r);
    let first = rank_text(b, r, 0, 0);
    lemma_rank_text_no_blank(b, r, 0, 0);
    if r > 0 {
        let rest = ranks_text(b, r - 1);
        lemma_ranks_text_no_blank(b, r - 1);
        assert(text == first + seq!['/'] + rest);
        assert forall|j: int| 0 <= j < text.len() implies #[trigger] text[j] != ' ' by {
            if j < first.len() {
                assert(text[j] == first[j]);
            } else if j == first.len() {
                assert(text[j] == '/');
            } else {
                assert(text[j] == rest[j - first.len() - 1]);
            }
        }
    }
}

/// The text `piece` stands in `s` from index `at` on.
#[verifier::opaque]
pub open spec fn stands_at(s: Seq<char>, at: int, piece: Seq<char>) -> bool {
    &&& 0 <= at
    &&& at + piece.len() <= s.len()
    &&& forall|j: int| 0 <= j < piece.len() ==> s[at + j] == #[trigger] piece[j]
}

/// What stands in a text stands in the text with more appended, and what
/// is appended stands at the end.
proof fn lemma_stands(s: Seq<char>, more: Seq<char>, at: int, piece: Seq<char>)
    ensures
        stands_at(s, at, piece) ==> stands_at(s + more, at, piece),
        stands_at(s + more, s.len() as int, more),
{
    reveal(stands_at);
}

/// The characters of a text that stands in `s`.
proof fn lemma_stands_chars(s: Seq<char>, at: int, piece: Seq<char>)
    requires
        stands_at(s, at, piece),
    ensures
        0 <= at,
        at + piece.len() <= s.len(),
        forall|j: int| 0 <= j < piece.len() ==> s[at + j] == #[trigger] piece[j],
{
    reveal(stands_at);
}

/// A text without blanks that stands in `s` before a blank, or at the
/// end, is a field of `s`.
proof fn lemma_stands_as_field(s: Seq<char>, at: int, piece: Seq<char>)
    requires
        stands_at(s, at, piece),
        forall|j: int| 0 <= j < piece.len() ==> piece[j] != ' ',
        at + piece.len() == s.len() || s[at + piece.len()] == ' ',
    ensures
        field_end(s, at) == at + piece.len(),
{
    reveal(stands_at);
    assert forall|i: int| at <= i < at + piece.len() implies s[i] != ' ' by {
        assert(s[at + (i - at)] == piece[i - at]);
    }
    lemma_field_ends_at(s, at, at + piece.len());
}

/// The castle rights that the letters of `castle_text` stand for.
pub open spec fn castle_sum(castle: u8) -> u8 {
    let a = if castle & 1 != 0 {
        0u8 | 1u8
    } else {
        0u8
    };
    let b = if castle & 2 != 0 {
        a | 2u8
    } else {
        a
    };
    let c = if castle & 4 != 0 {
        b | 4u8
    } else {
        b
    };
    if castle & 8 != 0 {
        c | 8u8
    } else {
        c
    }
}

/// Four bits put together one by one give the word they were taken from.
proof fn lemma_bit_castle_sum()
    by (bit_vector)
    ensures
        forall|c: u8| c < 16 ==> #[trigger] castle_sum(c) == c,
        forall|c: u8| c < 16 && c & 1 == 0 && c & 2 == 0 && c & 4 == 0 && c & 8 == 0 ==> c == 0,
{
}

/// One optional letter of the castle rights.
pub open spec fn castle_letter(present: bool, letter: char) -> Seq<char> {
    if present {
        seq![letter]
    } else {
        Seq::<char>::empty()
    }
}

/// Reading one letter of the castle rights, where it is there, adds its
/// bit.
proof fn lemma_castle_letter_read(
    s: Seq<char>,
    i: int,
    to: int,
    acc: u8,
    present: bool,
    letter: char,
    bit: u8,
)
    requires
        0 <= i,
        i + castle_letter(present, letter).len() <= to <= s.len(),
        present ==> s[i] == letter,
        (letter == 'K' && bit == WHITE_OO) || (letter == 'Q' && bit == WHITE_OOO) || (letter == 'k'
            && bit == BLACK_OO) || (letter == 'q' && bit == BLACK_OOO),
    ensures
        castle_of(s, i, to, acc) == castle_of(
            s,
            i + castle_letter(present, letter).len(),
            to,
            if present {
                acc | bit
            } else {
                acc
            },
        ),
{
}

/// The text of castle rights, read back, gives the rights; it holds no
/// blank and is not empty.
proof fn lemma_castle_read(s: Seq<char>, i: int, castle: u8)
    requires
        castle < 16,
        stands_at(s, i, castle_text(castle)),
    ensures
        castle_of(s, i, i + castle_text(castle).len(), 0) == castle,
        castle_text(castle).len() >= 1,
        forall|j: int| 0 <= j < castle_text(castle).len() ==> castle_text(castle)[j] != ' ',
{
    let text = castle_text(castle);
    let to = i + text.len();
    lemma_stands_chars(s, i, text);
    lemma_bit_castle_sum();
    if castle == 0 {
        assert(text[0] == '-');
        assert(s[i + 0] == text[0]);
        assert(castle_of(s, i, to, 0) == 0);
    } else {
        let k1 = castle & WHITE_OO != 0;
        let k2 = castle & WHITE_OOO != 0;
        let k3 = castle & BLACK_OO != 0;
        let k4 = castle & BLACK_OOO != 0;
        let t1 = castle_letter(k1, 'K');
        let t2 = castle_letter(k2, 'Q');
        let t3 = castle_letter(k3, 'k');
        let t4 = castle_letter(k4, 'q');
        assert(text == t1 + t2 + t3 + t4);
        let p1 = i + t1.len();
        let p2 = p1 + t2.len();
        let p3 = p2 + t3.len();
        if k1 {
            assert(text[0] == 'K');
            assert(s[i + 0] == text[0]);
        }
        if k2 {
            assert(text[p1 - i] == 'Q');
            assert(s[i + (p1 - i)] == text[p1 - i]);
        }
        if k3 {
            assert(text[p2 - i] == 'k');
            assert(s[i + (p2 - i)] == text[p2 - i]);
        }
        if k4 {
            assert(text[p3 - i] == 'q');
            assert(s[i + (p3 - i)] == text[p3 - i]);
        }
        let a1 = if k1 {
            0u8 | WHITE_OO
        } else {
            0u8
        };
        let a2 = if k2 {
            a1 | WHITE_OOO
        } else {
            a1
        };
        let a3 = if k3 {
            a2 | BLACK_OO
        } else {
            a2
        };
        lemma_castle_letter_read(s, i, to, 0, k1, 'K', WHITE_OO);
        lemma_castle_letter_read(s, p1, to, a1, k2, 'Q', WHITE_OOO);
        lemma_castle_letter_read(s, p2, to, a2, k3, 'k', BLACK_OO);
        lemma_castle_letter_read(s, p3, to, a3, k4, 'q', BLACK_OOO);
        assert(castle_sum(castle) == castle);
        assert forall|j: int| 0 <= j < text.len() implies text[j] != ' ' by {
            assert(text[j] == 'K' || text[j] == 'Q' || text[j] == 'k' || text[j] == 'q');
        }
    }
}

/// The text of an en passant square, read back, gives the square; it
/// holds no blank and is not empty.
proof fn lemma_ep_read(s: Seq<char>, i: int, ep: u8)
    requires
        ep < 64 || ep == NO_SQUARE,
        stands_at(s, i, sq_text(ep as int)),
    ensures
        ep_of(s, i, i + sq_text(ep as int).len()) == Some(ep),
        sq_text(ep as int).len() >= 1,
        forall|j: int| 0 <= j < sq_text(ep as int).len() ==> sq_text(ep as int)[j] != ' ',
{
    let text = sq_text(ep as int);
    lemma_stands_chars(s, i, text);
    assert(s[i + 0] == text[0]);
    if ep != NO_SQUARE {
        lemma_square(ep as int);
        assert(s[i + 1] == text[1]);
        let fc = (file(ep as int) + 'a' as u8) as char;
        let rc = (rank(ep as int) + '1' as u8) as char;
        assert(text[0] == fc && text[1] == rc);
        assert('a' <= fc && fc <= 'h' && '1' <= rc && rc <= '8');
        assert(fc as int - 'a' as int == file(ep as int));
        assert(rc as int - '1' as int == rank(ep as int));
    }
}

/// The text of a board is made of the text of its ranks, the side to move
/// between two blanks, and four more parts with a blank between each two:
/// each part stands in the text at its place.
#[verifier::opaque]
pub open spec fn laid_out(s: Seq<char>, b: Board) -> bool {
    let ranks = ranks_text(b, 7);
    let castle = castle_text(b.castle);
    let ep = sq_text(b.ep as int);
    let half = int_text(b.half as int);
    let full = int_text(b.full as int);
    let at_castle: int = ranks.len() as int + 3;
    let at_ep: int = at_castle + castle.len() + 1;
    let at_half: int = at_ep + ep.len() + 1;
    let at_full: int = at_half + half.len() + 1;
    &&& s.len() == at_full + full.len()
    &&& stands_at(s, 0, ranks)
    &&& stands_at(
        s,
        ranks.len() as int,
        seq![' ', if b.side == Color::White {
            'w'
        } else {
            'b'
        }, ' '],
    )
    &&& stands_at(s, at_castle, castle)
    &&& stands_at(s, at_ep - 1, seq![' '])
    &&& stands_at(s, at_ep, ep)
    &&& stands_at(s, at_half - 1, seq![' '])
    &&& stands_at(s, at_half, half)
    &&& stands_at(s, at_full - 1, seq![' '])
    &&& stands_at(s, at_full, full)
}

/// The text of a board is laid out as `laid_out` says.
proof fn lemma_laid_out(b: Board)
    ensures
        laid_out(fen_text(b), b),
{
    reveal(laid_out);
    let ranks = ranks_text(b, 7);
    let side = seq![' ', if b.side == Color::White {
        'w'
    } else {
        'b'
    }, ' '];
    let castle = castle_text(b.castle);
    let blank = seq![' '];
    let ep = sq_text(b.ep as int);
    let half = int_text(b.half as int);
    let full = int_text(b.full as int);
    let t1 = ranks + side;
    let t2 = t1 + castle;
    let t3 = t2 + blank;
    let t4 = t3 + ep;
    let t5 = t4 + blank;
    let t6 = t5 + half;
    let t7 = t6 + blank;
    let s = t7 + full;
    assert(s == fen_text(b));
    let at_side = ranks.len() as int;
    let at_castle = t1.len() as int;
    let at_blank1 = t2.len() as int;
    let at_ep = t3.len() as int;
    let at_blank2 = t4.len() as int;
    let at_half = t5.len() as int;
    let at_blank3 = t6.len() as int;
    let at_full = t7.len() as int;
    assert(stands_at(ranks, 0, ranks)) by {
        reveal(stands_at);
    }
    lemma_stands(ranks, side, 0, ranks);
    lemma_stands(t1, castle, 0, ranks);
    lemma_stands(t1, castle, at_side, side);
    lemma_stands(t2, blank, 0, ranks);
    lemma_stands(t2, blank, at_side, side);
    lemma_stands(t2, blank, at_castle, castle);
    lemma_stands(t3, ep, 0, ranks);
    lemma_stands(t3, ep, at_side, side);
    lemma_stands(t3, ep, at_castle, castle);
    lemma_stands(t3, ep, at_blank1, blank);
    lemma_stands(t4, blank, 0, ranks);
    lemma_stands(t4, blank, at_side, side);
    lemma_stands(t4, blank, at_castle, castle);
    lemma_stands(t4, blank, at_blank1, blank);
    lemma_stands(t4, blank, at_ep, ep);
    lemma_stands(t5, half, 0, ranks);
    lemma_stands(t5, half, at_side, side);
    lemma_stands(t5, half, at_castle, castle);
    lemma_stands(t5, half, at_blank1, blank);
    lemma_stands(t5, half, at_ep, ep);
    lemma_stands(t5, half, at_blank2, blank);
    lemma_stands(t6, blank, 0, ranks);
    lemma_stands(t6, blank, at_side, side);
    lemma_stands(t6, blank, at_castle, castle);
    lemma_stands(t6, blank, at_blank1, blank);
    lemma_stands(t6, blank, at_ep, ep);
    lemma_stands(t6, blank, at_blank2, blank);
    lemma_stands(t6, blank, at_half, half);
    lemma_stands(t7, full, 0, ranks);
    lemma_stands(t7, full, at_side, side);
    lemma_stands(t7, full, at_castle, castle);
    lemma_stands(t7, full, at_blank1, blank);
    lemma_stands(t7, full, at_ep, ep);
    lemma_stands(t7, full, at_blank2, blank);
    lemma_stands(t7, full, at_half, half);
    lemma_stands(t7, full, at_blank3, blank);
}

/// The character of a one-blank text that stands in `s` is a blank.
proof fn lemma_blank_at(s: Seq<char>, at: int)
    requires
        stands_at(s, at, seq![' ']),
    ensures
        0 <= at < s.len(),
        s[at] == ' ',
{
    reveal(stands_at);
    assert(s[at + 0] == seq![' '][0]);
}

/// The pieces that the text of the ranks of `b` places are those of `b`.
proof fn lemma_pieces_read(s: Seq<char>, b: Board)
    requires
        b.wf(),
        stands_at(s, 0, ranks_text(b, 7)),
    ensures
        placed(s, 0, ranks_text(b, 7).len() as int, 56, 7, Board::start()).is_some(),
        placed(s, 0, ranks_text(b, 7).len() as int, 56, 7, Board::start()).unwrap().piece
            == b.piece,
        placed(s, 0, ranks_text(b, 7).len() as int, 56, 7, Board::start()).unwrap().color
            == b.color,
{
    let start = Board::start();
    let ranks = ranks_text(b, 7);
    lemma_stands_chars(s, 0, ranks);
    assert forall|j: int| 0 <= j < ranks.len() implies s[0 + j] == ranks[j] by {}
    lemma_ranks_read(s, 0, b, 7, start);
    lemma_with_ranks(start, b, 7);
    let pieces = with_ranks(start, b, 7);
    assert(pieces.piece =~= b.piece);
    assert(pieces.color =~= b.color);
}

/// The text of a board, read back, gives the board: for a board with a
/// side to move, an en passant square that is a square or none, and no
/// castle rights beyond the four.
pub proof fn lemma_fen_round_trip(b: Board)
    requires
        b.wf(),
        b.side != Color::NoColor,
        b.ep < 64 || b.ep == NO_SQUARE,
        b.castle < 16,
    ensures
        fen_board(fen_text(b)) == Some(b),
{
    let s = fen_text(b);
    lemma_laid_out(b);
    reveal(laid_out);
    let ranks = ranks_text(b, 7);
    let side = seq![' ', if b.side == Color::White {
        'w'
    } else {
        'b'
    }, ' '];
    let castle = castle_text(b.castle);
    let ep = sq_text(b.ep as int);
    let half = int_text(b.half as int);
    let full = int_text(b.full as int);
    let at_side = ranks.len() as int;
    let at_castle = at_side + 3;
    let at_ep = at_castle + castle.len() + 1;
    let at_half = at_ep + ep.len() + 1;
    let at_full = at_half + half.len() + 1;
    lemma_ranks_text_no_blank(b, 7);
    lemma_castle_read(s, at_castle, b.castle);
    lemma_ep_read(s, at_ep, b.ep);
    lemma_stands_chars(s, at_half, half);
    lemma_stands_chars(s, at_full, full);
    lemma_int_text(b.half as int, s, at_half);
    lemma_int_text(b.full as int, s, at_full);
    lemma_blank_at(s, at_ep - 1);
    lemma_blank_at(s, at_half - 1);
    lemma_blank_at(s, at_full - 1);
    lemma_stands_chars(s, at_side, side);
    assert(s[at_side] == ' ' && s[at_side + 2] == ' ' && s[at_side + 1] != ' ' && s[at_side + 1]
        == side[1]) by {
        assert(s[at_side + 0] == side[0]);
        assert(s[at_side + 1] == side[1]);
        assert(s[at_side + 2] == side[2]);
    }
    lemma_stands_as_field(s, 0, ranks);
    lemma_field_ends_at(s, at_side + 1, at_side + 2);
    lemma_stands_as_field(s, at_castle, castle);
    lemma_stands_as_field(s, at_ep, ep);
    lemma_stands_as_field(s, at_half, half);
    lemma_stands_as_field(s, at_full, full);
    lemma_pieces_read(s, b);
    assert(side_of(s, at_side + 1, at_side + 2) == Some(b.side));
    let read = fen_board(s).unwrap();
    assert(fen_board(s).is_some());
    assert(read.piece == b.piece);
    assert(read.color == b.color);
}

} // verus!
