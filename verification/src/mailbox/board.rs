//! The grid board: an 8 by 8 array of squares, built from the placement
//! field of a descriptor string.

use vstd::prelude::*;

use crate::board::{split_bytes, split_fields};
use crate::mailbox::piece::{Color, Piece, PieceType, Square};
use vstd::string::StringSliceAdditionalSpecFns;

verus! {

pub struct Board(pub [[Square; 8]; 8]);

/// A proposed displacement on the grid board.
#[derive(Clone, Copy, Debug, PartialEq, Eq)]
pub struct Move {
    pub start: (usize, usize),
    pub end: (usize, usize),
}

/// The rook path rule along a file: ranks `lo` through `hi` are examined
/// in ascending order; the first occupied square met decides — an
/// own-color piece refuses the move, an opposing piece accepts it exactly
/// when it stands on the destination rank — and an empty stretch accepts.
pub open spec fn scan_file(b: Board, file: int, lo: int, hi: int, own: Color, end_rank: int) -> bool
    decreases hi + 1 - lo,
{
    if lo > hi {
        true
    } else {
        match b.spec_at(lo, file).0 {
            Some(p) => p.color != own && lo == end_rank,
            None => scan_file(b, file, lo + 1, hi, own, end_rank),
        }
    }
}

/// The rook path rule along a rank, the mirror image of `scan_file`.
pub open spec fn scan_rank(b: Board, rank: int, lo: int, hi: int, own: Color, end_file: int) -> bool
    decreases hi + 1 - lo,
{
    if lo > hi {
        true
    } else {
        match b.spec_at(rank, lo).0 {
            Some(p) => p.color != own && lo == end_file,
            None => scan_rank(b, rank, lo + 1, hi, own, end_file),
        }
    }
}

/// Validity of a move on the grid board: an empty origin refuses; a rook
/// moves along its file or rank, scanning the squares between origin and
/// destination — from the square after the origin when moving toward
/// higher indices, and from the destination up to the square before the
/// origin when moving toward lower ones.
pub open spec fn spec_is_move_valid(b: Board, start: (int, int), end: (int, int)) -> bool {
    match b.spec_at(start.0, start.1).0 {
        None => false,
        Some(p) => if start.1 == end.1 {
            if start.0 < end.0 {
                scan_file(b, start.1, start.0 + 1, end.0, p.color, end.0)
            } else {
                scan_file(b, start.1, end.0, start.0 - 1, p.color, end.0)
            }
        } else if start.0 == end.0 {
            if start.1 < end.1 {
                scan_rank(b, start.0, start.1 + 1, end.1, p.color, end.1)
            } else {
                scan_rank(b, start.0, end.1, start.1 - 1, p.color, end.1)
            }
        } else {
            false
        },
    }
}

/// Parses the placement field onto a grid: a piece letter fills the cursor
/// cell, a digit skips that many files, and a `/` ends the rank, of which
/// there may be at most eight.  A piece letter whose cell lies off the
/// grid fails; a digit run may overshoot a rank's eight files without
/// placing anything.
pub open spec fn grid_parse_placement(
    s: Seq<u8>,
    rank: int,
    file: int,
    acc: Map<(int, int), Piece>,
) -> Option<Map<(int, int), Piece>>
    decreases s.len(),
{
    if s.len() == 0 {
        if rank >= 8 {
            None
        } else {
            Some(acc)
        }
    } else {
        let c = s[0];
        if c == 47 {
            if rank >= 8 {
                None
            } else {
                grid_parse_placement(s.skip(1), rank + 1, 0, acc)
            }
        } else if Piece::spec_from_char(c as char) is Some {
            if rank < 8 && file < 8 {
                grid_parse_placement(
                    s.skip(1),
                    rank,
                    file + 1,
                    acc.insert((rank, file), Piece::spec_from_char(c as char).unwrap()),
                )
            } else {
                None
            }
        } else if 49 <= c <= 56 {
            grid_parse_placement(s.skip(1), rank, file + (c - 48), acc)
        } else {
            None
        }
    }
}

/// The full descriptor rule of the grid board: exactly six space-separated
/// fields, of which only the placement field is interpreted.
pub open spec fn grid_parse_fen(s: Seq<u8>) -> Option<Map<(int, int), Piece>> {
    let fields = split_bytes(s, 32);
    if fields.len() != 6 {
        None
    } else {
        grid_parse_placement(fields[0], 0, 0, Map::empty())
    }
}

impl Board {
    /// The square at an on-grid coordinate.
    pub open spec fn spec_at(self, rank: int, file: int) -> Square {
        self.0[rank][file]
    }

    /// Empty grid.
    pub fn new() -> (r: Self)
        ensures
            forall|rank: int, file: int|
                0 <= rank < 8 && 0 <= file < 8 ==> #[trigger] r.spec_at(rank, file) == Square(None),
    {
        let cell = Square(None);
        let row = [cell, cell, cell, cell, cell, cell, cell, cell];
        Self([row, row, row, row, row, row, row, row])
    }

    /// The square at `(rank, file)`.
    pub fn get(&self, rank: usize, file: usize) -> (r: Square)
        requires
            rank < 8,
            file < 8,
        ensures
            r == self.spec_at(rank as int, file as int),
    {
        self.0[rank][file]
    }

    /// Replaces the square at `(rank, file)`.
    pub fn set(&mut self, rank: usize, file: usize, value: Square)
        requires
            rank < 8,
            file < 8,
        ensures
            forall|r: int, f: int|
                0 <= r < 8 && 0 <= f < 8 ==> #[trigger] final(self).spec_at(r, f) == (if r
                    == rank as int && f == file as int {
                    value
                } else {
                    old(self).spec_at(r, f)
                }),
    {
        let mut row = self.0[rank];
        row[file] = value;
        self.0[rank] = row;
    }

    /// Builds a grid from a six-field descriptor string, interpreting only
    /// its placement field.  Succeeds exactly when the bytes satisfy the
    /// `grid_parse_fen` rule; on failure no partial grid escapes.
    #[verifier::loop_isolation(false)]
    pub fn from_fen(fen: &str) -> (r: Option<Board>)
        ensures
            match grid_parse_fen(fen.spec_bytes()) {
                None => r is None,
                Some(placement) => r matches Some(b) && forall|rank: int, file: int|
                    0 <= rank < 8 && 0 <= file < 8 ==> #[trigger] b.spec_at(rank, file) == Square(
                        if placement.contains_key((rank, file)) {
                            Some(placement[(rank, file)])
                        } else {
                            None
                        },
                    ),
            },
    {
        let bytes = fen.as_bytes();
        let ghost s = bytes@;
        let fields = split_fields(bytes);
        if fields.len() != 6 {
            return None;
        }
        let mut board = Board::new();

        let (p_start, p_end) = fields[0];
        let position = vstd::slice::slice_subrange(bytes, p_start, p_end);
        let ghost pseq = position@;
        proof {
            assert(pseq == split_bytes(s, 32)[0]);
            assert(pseq.skip(0) =~= pseq);
        }

        let mut rank: usize = 0;
        // Past eight files no placement can be accepted, so the cursor
        // saturates at nine: its exact overshoot never matters.
        let mut file: usize = 0;
        let ghost mut gfile: int = 0;
        let ghost mut acc: Map<(int, int), Piece> = Map::empty();
        let mut i: usize = 0;
        while i < position.len()
            invariant
                i <= pseq.len(),
                rank <= 8,
                file <= 9,
                gfile >= file,
                file < 9 ==> gfile == file,
                file == 9 ==> gfile >= 9,
                grid_parse_placement(pseq, 0, 0, Map::empty()) == grid_parse_placement(
                    pseq.skip(i as int),
                    rank as int,
                    gfile,
                    acc,
                ),
                forall|r: int, f: int|
                    0 <= r < 8 && 0 <= f < 8 ==> #[trigger] board.spec_at(r, f) == Square(
                        if acc.contains_key((r, f)) {
                            Some(acc[(r, f)])
                        } else {
                            None
                        },
                    ),
            decreases pseq.len() - i,
        {
            let c = position[i];
            proof {
                assert(pseq.skip(i as int).len() > 0);
                assert(pseq.skip(i as int)[0] == c);
                assert(pseq.skip(i as int).skip(1) =~= pseq.skip(i as int + 1));
            }
            if c == 47 {
                if rank >= 8 {
                    return None;
                }
                rank = rank + 1;
                file = 0;
                proof {
                    gfile = 0;
                }
            } else if let Some(piece) = Piece::from_char(c as char) {
                if rank < 8 && file < 8 {
                    board.set(rank, file, Square(Some(piece)));
                    proof {
                        acc = acc.insert((rank as int, file as int), piece);
                    }
                    file = file + 1;
                    proof {
                        gfile = gfile + 1;
                    }
                } else {
                    return None;
                }
            } else if 49 <= c && c <= 56 {
                proof {
                    gfile = gfile + (c - 48);
                }
                file = file + ((c - 48) as usize);
                if file > 9 {
                    file = 9;
                }
            } else {
                return None;
            }
            i += 1;
        }
        proof {
            assert(pseq.skip(i as int).len() == 0);
        }
        if rank >= 8 {
            return None;
        }
        Some(board)
    }

    /// Checks a proposed move against the path rule.  Only rook movement
    /// is implemented on this board, so the origin must hold a rook or
    /// nothing, and a move must go somewhere: the rule never examines a
    /// standstill.
    #[verifier::loop_isolation(false)]
    pub fn is_move_valid(&self, chess_move: &Move) -> (r: bool)
        requires
            chess_move.start.0 < 8,
            chess_move.start.1 < 8,
            chess_move.end.0 < 8,
            chess_move.end.1 < 8,
            chess_move.start != chess_move.end,
            self.spec_at(chess_move.start.0 as int, chess_move.start.1 as int).0 matches Some(p)
                ==> p.piece_type == PieceType::Rook,
        ensures
            r == spec_is_move_valid(
                *self,
                (chess_move.start.0 as int, chess_move.start.1 as int),
                (chess_move.end.0 as int, chess_move.end.1 as int),
            ),
    {
        let start = chess_move.start;
        let end = chess_move.end;
        let start_piece = self.get(start.0, start.1).0;
        if let Some(start_piece) = start_piece {
            if start.1 == end.1 {
                let (lo, hi): (usize, usize) = if start.0 < end.0 {
                    (start.0 + 1, end.0)
                } else {
                    (end.0, start.0 - 1)
                };
                let mut rank = lo;
                while rank <= hi
                    invariant
                        lo <= rank <= hi + 1,
                        hi < 8,
                        start.1 < 8,
                        scan_file(
                            *self,
                            start.1 as int,
                            lo as int,
                            hi as int,
                            start_piece.color,
                            end.0 as int,
                        ) == scan_file(
                            *self,
                            start.1 as int,
                            rank as int,
                            hi as int,
                            start_piece.color,
                            end.0 as int,
                        ),
                    decreases hi + 1 - rank,
                {
                    if let Some(current_piece) = self.get(rank, start.1).0 {
                        return current_piece.color != start_piece.color && rank == end.0;
                    }
                    rank += 1;
                }
                true
            } else if start.0 == end.0 {
                let (lo, hi): (usize, usize) = if start.1 < end.1 {
                    (start.1 + 1, end.1)
                } else {
                    (end.1, start.1 - 1)
                };
                let mut file = lo;
                while file <= hi
                    invariant
                        lo <= file <= hi + 1,
                        hi < 8,
                        start.0 < 8,
                        scan_rank(
                            *self,
                            start.0 as int,
                            lo as int,
                            hi as int,
                            start_piece.color,
                            end.1 as int,
                        ) == scan_rank(
                            *self,
                            start.0 as int,
                            file as int,
                            hi as int,
                            start_piece.color,
                            end.1 as int,
                        ),
                    decreases hi + 1 - file,
                {
                    if let Some(current_piece) = self.get(start.0, file).0 {
                        return current_piece.color != start_piece.color && file == end.1;
                    }
                    file += 1;
                }
                true
            } else {
                false
            }
        } else {
            false
        }
    }

    /// Applies a move when the path rule accepts it, emptying the origin
    /// and writing its piece over the destination; a rejected move leaves
    /// the grid untouched.
    pub fn make_move(&mut self, chess_move: &Move) -> (applied: bool)
        requires
            chess_move.start.0 < 8,
            chess_move.start.1 < 8,
            chess_move.end.0 < 8,
            chess_move.end.1 < 8,
            chess_move.start != chess_move.end,
            old(self).spec_at(chess_move.start.0 as int, chess_move.start.1 as int).0 matches Some(
                p,
            ) ==> p.piece_type == PieceType::Rook,
        ensures
            applied == spec_is_move_valid(
                *old(self),
                (chess_move.start.0 as int, chess_move.start.1 as int),
                (chess_move.end.0 as int, chess_move.end.1 as int),
            ),
            !applied ==> *final(self) == *old(self),
            applied ==> forall|r: int, f: int|
                0 <= r < 8 && 0 <= f < 8 ==> #[trigger] final(self).spec_at(r, f) == (if r
                    == chess_move.end.0 as int && f == chess_move.end.1 as int {
                    old(self).spec_at(chess_move.start.0 as int, chess_move.start.1 as int)
                } else if r == chess_move.start.0 as int && f == chess_move.start.1 as int {
                    Square(None)
                } else {
                    old(self).spec_at(r, f)
                }),
    {
        if !self.is_move_valid(chess_move) {
            return false;
        }

        let moving = self.get(chess_move.start.0, chess_move.start.1);
        self.set(chess_move.end.0, chess_move.end.1, moving);
        self.set(chess_move.start.0, chess_move.start.1, Square(None));
        true
    }
}

} // verus!
