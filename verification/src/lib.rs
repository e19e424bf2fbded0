//! A chess move generator on bitboards, verified with Verus.
//!
//! A position is twelve 64-bit sets of squares, one for each kind of piece
//! of each colour. The squares that knights, kings and pawns attack are
//! looked up by square; those of bishops, rooks and queens are looked up by
//! square and by a hash of the occupied squares that matter, the *magic
//! index*. From these tables the pseudo-legal moves are generated, and
//! [`board::Board::make_move`] applies a move and tells whether it left the
//! mover's king in check, which is how the legal moves are told apart.
//!
//! What is proved:
//!
//! - the tables hold, for every square and every occupancy, exactly the
//!   squares that the rules of movement give ([`movegen::precalc`], with the
//!   rules stated in [`movegen::geometry`]);
//! - the move lists are exactly the moves that [`movegen::pseudo_legal`] and
//!   [`movegen::legal`] describe, in that order;
//! - applying a move gives exactly the position of
//!   [`board::Board::after_move`], and pseudo-legal moves keep a position
//!   well formed ([`movegen::rules`]);
//! - reading a position from text gives exactly what [`fen::fen_board`]
//!   describes.
pub mod bitboard;
pub mod bitboardindex;
pub mod bits;
pub mod board;
pub mod bot;
pub mod fen;
pub mod movegen;
pub mod perft;
pub mod piece;
pub mod square;
pub mod text;
