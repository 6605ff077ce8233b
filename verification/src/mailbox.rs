//! A second, simpler board representation: an 8 by 8 grid of squares each
//! holding an optional piece, with its own piece catalog.  It predates the
//! square-set board and offers construction and lookup only.

pub mod board;
pub mod piece;
