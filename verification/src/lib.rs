//! A chess position library: bitboard-based board state and pseudo-legal
//! move generation.
//!
//! A position is a set of 64-bit square masks, one per piece identity, kept
//! consistent with three aggregate occupancy masks.  The move generator
//! derives, for the piece on a given origin square, the mask of squares it
//! may move to under the pseudo-legal rules (blocking, capture, castling
//! rights), without any notion of check.

pub mod bitset;
pub mod board;
pub mod coords;
pub mod mailbox;
pub mod movegen;
pub mod piece;
