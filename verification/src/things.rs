//! Ranks, files, pieces, colors and castle rights.

use vstd::prelude::*;

verus! {

/// The eight ranks, first rank first.
#[derive(Clone, Copy, PartialEq, Eq, Structural, Debug)]
pub enum Rank {
    Rank1,
    Rank2,
    Rank3,
    Rank4,
    Rank5,
    Rank6,
    Rank7,
    Rank8,
}

/// Number of ranks.
pub const NUM_RANKS: usize = 8;

/// The eight files, a-file first.
#[derive(Clone, Copy, PartialEq, Eq, Structural, Debug)]
pub enum File {
    FileA,
    FileB,
    FileC,
    FileD,
    FileE,
    FileF,
    FileG,
    FileH,
}

/// Number of files.
pub const NUM_FILES: usize = 8;

/// A piece kind, or `NoPiece` for an empty square.
#[derive(Clone, Copy, PartialEq, Eq, Structural, Debug)]
pub enum Piece {
    Pawn,
    Knight,
    Bishop,
    Rook,
    Queen,
    King,
    NoPiece,
}

/// Number of piece kinds.
pub const NUM_PIECES: usize = 6;

/// A side, or `NoColor` for an empty square.
#[derive(Clone, Copy, PartialEq, Eq, Structural, Debug)]
pub enum Color {
    White,
    Black,
    NoColor,
}

/// Number of sides.
pub const NUM_COLORS: usize = 2;

/// White may castle on the king's side.
pub const WHITE_OO: u8 = 1;

/// White may castle on the queen's side.
pub const WHITE_OOO: u8 = 2;

/// Black may castle on the king's side.
pub const BLACK_OO: u8 = 4;

/// Black may castle on the queen's side.
pub const BLACK_OOO: u8 = 8;

impl Piece {
    /// Position of the piece kind in per-piece arrays: 0 for a pawn up to 5
    /// for a king; 6 for `NoPiece`.
    pub open spec fn number(self) -> int {
        match self {
            Piece::Pawn => 0,
            Piece::Knight => 1,
            Piece::Bishop => 2,
            Piece::Rook => 3,
            Piece::Queen => 4,
            Piece::King => 5,
            Piece::NoPiece => 6,
        }
    }

    /// Position of the piece kind in per-piece arrays.
    pub fn index(self) -> (i: usize)
        ensures
            i == self.number(),
            self != Piece::NoPiece ==> i < NUM_PIECES,
    {
        match self {
            Piece::Pawn => 0,
            Piece::Knight => 1,
            Piece::Bishop => 2,
            Piece::Rook => 3,
            Piece::Queen => 4,
            Piece::King => 5,
            Piece::NoPiece => 6,
        }
    }
}

impl Color {
    /// Position of the side in per-color arrays: 0 for White, 1 for Black;
    /// 2 for `NoColor`.
    pub open spec fn number(self) -> int {
        match self {
            Color::White => 0,
            Color::Black => 1,
            Color::NoColor => 2,
        }
    }

    /// Position of the side in per-color arrays.
    pub fn index(self) -> (i: usize)
        ensures
            i == self.number(),
            self != Color::NoColor ==> i < NUM_COLORS,
    {
        match self {
            Color::White => 0,
            Color::Black => 1,
            Color::NoColor => 2,
        }
    }

    /// The other side; `NoColor` has none.
    pub open spec fn other(self) -> Color {
        match self {
            Color::White => Color::Black,
            Color::Black => Color::White,
            Color::NoColor => Color::NoColor,
        }
    }
}

/// The letter that stands for a piece kind in either case, or nothing.
pub open spec fn piece_of_letter(c: char) -> Option<Piece> {
    if c == 'p' || c == 'P' {
        Some(Piece::Pawn)
    } else if c == 'n' || c == 'N' {
        Some(Piece::Knight)
    } else if c == 'b' || c == 'B' {
        Some(Piece::Bishop)
    } else if c == 'r' || c == 'R' {
        Some(Piece::Rook)
    } else if c == 'q' || c == 'Q' {
        Some(Piece::Queen)
    } else if c == 'k' || c == 'K' {
        Some(Piece::King)
    } else {
        None
    }
}

/// Whether `c` is one of the twelve piece letters.
pub fn is_piece_char(c: char) -> (b: bool)
    ensures
        b == piece_of_letter(c).is_some(),
{
    c == 'p' || c == 'P' || c == 'n' || c == 'N' || c == 'b' || c == 'B' || c == 'r' || c == 'R'
        || c == 'q' || c == 'Q' || c == 'k' || c == 'K'
}

/// The piece kind a letter stands for, whatever its case.
pub fn piece_from_char(c: char) -> (p: Piece)
    requires
        piece_of_letter(c).is_some(),
    ensures
        Some(p) == piece_of_letter(c),
        p != Piece::NoPiece,
{
    if c == 'p' || c == 'P' {
        Piece::Pawn
    } else if c == 'n' || c == 'N' {
        Piece::Knight
    } else if c == 'b' || c == 'B' {
        Piece::Bishop
    } else if c == 'r' || c == 'R' {
        Piece::Rook
    } else if c == 'q' || c == 'Q' {
        Piece::Queen
    } else {
        Piece::King
    }
}

/// The side a letter stands for: White for an upper-case ASCII letter,
/// Black for anything else.
pub open spec fn color_of_letter(c: char) -> Color {
    if 'A' <= c && c <= 'Z' {
        Color::White
    } else {
        Color::Black
    }
}

/// The side a piece letter stands for.
pub fn color_from_char(c: char) -> (color: Color)
    ensures
        color == color_of_letter(c),
{
    if 'A' <= c && c <= 'Z' {
        Color::White
    } else {
        Color::Black
    }
}

/// The character that shows a piece of a side: upper case, lower case for
/// Black, a blank for no piece.
pub open spec fn piece_letter(piece: Piece, color: Color) -> char {
    match (piece, color) {
        (Piece::NoPiece, _) => ' ',
        (Piece::Pawn, Color::Black) => 'p',
        (Piece::Knight, Color::Black) => 'n',
        (Piece::Bishop, Color::Black) => 'b',
        (Piece::Rook, Color::Black) => 'r',
        (Piece::Queen, Color::Black) => 'q',
        (Piece::King, Color::Black) => 'k',
        (Piece::Pawn, _) => 'P',
        (Piece::Knight, _) => 'N',
        (Piece::Bishop, _) => 'B',
        (Piece::Rook, _) => 'R',
        (Piece::Queen, _) => 'Q',
        (Piece::King, _) => 'K',
    }
}

/// The character that shows a piece of a side.
pub fn piece_to_char(piece: Piece, color: Color) -> (c: char)
    ensures
        c == piece_letter(piece, color),
{
    let black = color == Color::Black;
    match piece {
        Piece::NoPiece => ' ',
        Piece::Pawn => if black { 'p' } else { 'P' },
        Piece::Knight => if black { 'n' } else { 'N' },
        Piece::Bishop => if black { 'b' } else { 'B' },
        Piece::Rook => if black { 'r' } else { 'R' },
        Piece::Queen => if black { 'q' } else { 'Q' },
        Piece::King => if black { 'k' } else { 'K' },
    }
}

/// The one-character text that shows a piece of a side.
pub fn piece_to_str(piece: Piece, color: Color) -> (s: String)
    ensures
        s@ == seq![piece_letter(piece, color)],
{
    let mut s = String::new();
    s.push(piece_to_char(piece, color));
    s
}

/// A piece letter read back gives the piece and, for White and Black, the side.
pub proof fn lemma_piece_letter_round_trip(piece: Piece, color: Color)
    requires
        piece != Piece::NoPiece,
        color != Color::NoColor,
    ensures
        piece_of_letter(piece_letter(piece, color)) == Some(piece),
        color_of_letter(piece_letter(piece, color)) == color,
{
}

} // verus!
