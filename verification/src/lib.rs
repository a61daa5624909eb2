//! Legal chess move generation on bitboards, with machine-checked contracts.
//!
//! A position is kept as bitboards and as square arrays side by side. The
//! generator gives the legal moves of the side to move as 16-bit words;
//! `make_move` and `unmake_move` play a move and take it back. Sliding
//! attacks are looked up in magic tables that are built, and checked, once.
//!
//! The modules, leaves first:
//!
//! - [`bits`]: bitboards read as sets of squares, and the lemmas that
//!   connect word operations to that reading;
//! - [`square`], [`things`]: squares, ranks, files, pieces, colors;
//! - [`geometry`]: the rules of movement as predicates on squares;
//! - [`bitboard`]: shifts, least significant bit, population count, and the
//!   tables of what lies between two squares and on their line;
//! - [`magic`]: the magic tables of the rook and the bishop;
//! - [`attack`]: attack sets of all pieces;
//! - [`position`]: the position, making a move and taking it back, checks
//!   and pins;
//! - [`moves`]: move words and the move generator;
//! - [`rules`]: which moves the generator gives, as predicates;
//! - [`legality`]: why those moves leave the own king safe;
//! - [`completeness`]: why no legal move is missing;
//! - [`perft`]: counting the positions that can be reached;
//! - [`fen`], [`text`]: positions as text.

pub mod attack;
pub mod bitboard;
pub mod bits;
pub mod completeness;
pub mod fen;
pub mod geometry;
pub mod legality;
pub mod magic;
pub mod moves;
pub mod perft;
pub mod position;
pub mod rules;
pub mod square;
pub mod text;
pub mod things;
