//! The board state: one square set per piece identity, three aggregate
//! occupancy sets kept consistent with them, the side to move, and the four
//! castling-rights flags.

use vstd::prelude::*;

use crate::bitset::Bitset;
use crate::movegen::{
    home_rank, kingside_flag, lemma_castle_move_is_castle, lemma_reach_not_own,
    lemma_square_injective, move_wf, queenside_flag, side_rook, spec_reachable, square,
    valid_moves, InvalidMove, Move, MoveType,
};
use crate::piece::{Color, Piece};
use vstd::string::StringSliceAdditionalSpecFns;

verus! {

pub struct Board {
    /// One square set per piece identity, indexed by `Piece::index`.
    pub pieces: [Bitset; 12],
    /// Slot 0: all pieces; slot 1: white pieces; slot 2: black pieces.
    pub occupied: [Bitset; 3],
    pub side_to_move: Color,
    /// Ordered flags: white kingside, white queenside, black kingside,
    /// black queenside.  Each moves from true to false and never back.
    pub can_castle: [bool; 4],
}

impl Board {
    /// The square set of `p` contains `sq`.
    pub open spec fn spec_has(self, p: Piece, sq: u64) -> bool {
        self.pieces[p.spec_index()].spec_bit(sq)
    }

    /// Some piece occupies `sq`, as recorded by the aggregate occupancy set.
    pub open spec fn occ_all(self, sq: u64) -> bool {
        self.occupied[0].spec_bit(sq)
    }

    /// A piece of color `c` occupies `sq`, as recorded by that color's
    /// occupancy set.
    pub open spec fn occ_side(self, c: Color, sq: u64) -> bool {
        self.occupied[c.spec_index()].spec_bit(sq)
    }

    /// Consistency of the board state: every square hosts at most one piece
    /// identity, and each occupancy set equals the union of the piece sets
    /// it aggregates.
    pub open spec fn wf(self) -> bool {
        &&& forall|p: Piece, q: Piece, sq: u64|
            sq < 64 && #[trigger] self.spec_has(p, sq) && #[trigger] self.spec_has(q, sq) ==> p == q
        &&& forall|sq: u64|
            sq < 64 ==> (#[trigger] self.occ_all(sq) <==> exists|p: Piece| self.spec_has(p, sq))
        &&& forall|c: Color, sq: u64|
            sq < 64 ==> (#[trigger] self.occ_side(c, sq) <==> exists|p: Piece|
                p.spec_color() == c && #[trigger] self.spec_has(p, sq))
    }

    /// The piece identity occupying `sq`, if any.  Meaningful on
    /// well-formed boards, where at most one identity can claim `sq`.
    pub open spec fn spec_get(self, sq: u64) -> Option<Piece> {
        if exists|p: Piece| self.spec_has(p, sq) {
            Some(choose|p: Piece| self.spec_has(p, sq))
        } else {
            None
        }
    }

    /// On a well-formed board, the piece recorded at a square is the one
    /// the query reports.
    pub proof fn lemma_get_some(self, p: Piece, sq: u64)
        requires
            self.wf(),
            sq < 64,
            self.spec_has(p, sq),
        ensures
            self.spec_get(sq) == Some(p),
    {
        let w = choose|q: Piece| self.spec_has(q, sq);
        assert(self.spec_has(w, sq));
    }

    /// A square on which no piece set has a bit queries as empty.
    pub proof fn lemma_get_none(self, sq: u64)
        requires
            forall|p: Piece| !self.spec_has(p, sq),
        ensures
            self.spec_get(sq) is None,
    {
    }

    /// The query result names a piece whose set really contains the square.
    pub proof fn lemma_get_has(self, p: Piece, sq: u64)
        requires
            self.spec_get(sq) == Some(p),
        ensures
            self.spec_has(p, sq),
    {
        assert(exists|q: Piece| self.spec_has(q, sq));
    }

    /// Two boards with the same piece and occupancy sets agree on
    /// well-formedness and on every placement fact, whatever their side to
    /// move and castling flags.
    pub proof fn lemma_same_sets(a: Board, b: Board)
        requires
            a.wf(),
            b.pieces == a.pieces,
            b.occupied == a.occupied,
        ensures
            b.wf(),
            forall|q: Piece, s: u64| #[trigger] b.spec_has(q, s) == a.spec_has(q, s),
            forall|s: u64| #[trigger] b.occ_all(s) == a.occ_all(s),
            forall|c: Color, s: u64| #[trigger] b.occ_side(c, s) == a.occ_side(c, s),
    {
        assert forall|q: Piece, s: u64| #[trigger] b.spec_has(q, s) == a.spec_has(q, s) by {}
        assert forall|s: u64| #[trigger] b.occ_all(s) == a.occ_all(s) by {}
        assert forall|c: Color, s: u64| #[trigger] b.occ_side(c, s) == a.occ_side(c, s) by {}
        assert forall|p: Piece, q: Piece, sq: u64|
            sq < 64 && #[trigger] b.spec_has(p, sq) && #[trigger] b.spec_has(q, sq) implies p
            == q by {
            assert(a.spec_has(p, sq) && a.spec_has(q, sq));
        }
        assert forall|sq: u64| sq < 64 implies (#[trigger] b.occ_all(sq) <==> exists|p: Piece|
            b.spec_has(p, sq)) by {
            if b.occ_all(sq) {
                let w = choose|p: Piece| a.spec_has(p, sq);
                assert(b.spec_has(w, sq));
            }
            if exists|p: Piece| b.spec_has(p, sq) {
                let w = choose|p: Piece| b.spec_has(p, sq);
                assert(a.spec_has(w, sq));
            }
        }
        assert forall|c: Color, sq: u64| sq < 64 implies (#[trigger] b.occ_side(c, sq) <==> exists|
            p: Piece,
        | p.spec_color() == c && #[trigger] b.spec_has(p, sq)) by {
            if b.occ_side(c, sq) {
                let w = choose|p: Piece| p.spec_color() == c && a.spec_has(p, sq);
                assert(b.spec_has(w, sq));
            }
            if exists|p: Piece| p.spec_color() == c && b.spec_has(p, sq) {
                let w = choose|p: Piece| p.spec_color() == c && b.spec_has(p, sq);
                assert(a.spec_has(w, sq));
            }
        }
    }

    /// Empty board: no pieces anywhere, white to move, all four castling
    /// rights set.
    pub fn new() -> (r: Self)
        ensures
            r.wf(),
            forall|p: Piece, sq: u64| !r.spec_has(p, sq),
            forall|sq: u64| sq < 64 ==> !r.occ_all(sq),
            forall|c: Color, sq: u64| sq < 64 ==> !r.occ_side(c, sq),
            r.side_to_move == Color::White,
            forall|i: int| 0 <= i < 4 ==> r.can_castle[i],
    {
        let r = Self {
            pieces: [
                Bitset::new(0),
                Bitset::new(0),
                Bitset::new(0),
                Bitset::new(0),
                Bitset::new(0),
                Bitset::new(0),
                Bitset::new(0),
                Bitset::new(0),
                Bitset::new(0),
                Bitset::new(0),
                Bitset::new(0),
                Bitset::new(0),
            ],
            occupied: [Bitset::new(0), Bitset::new(0), Bitset::new(0)],
            side_to_move: Color::White,
            can_castle: [true, true, true, true],
        };
        proof {
            assert forall|j: u64| !#[trigger] crate::bitset::word_bit(0u64, j) by {
                crate::bitset::lemma_word_zero(j);
            }
            assert(forall|p: Piece| 0 <= #[trigger] p.spec_index() < 12);
        }
        r
    }

    /// Places `piece` on the square `rank * 8 + file`, mirroring the bit
    /// into the aggregate and color occupancy sets.  The square must be
    /// empty: the precondition makes the caller's obligation explicit
    /// instead of clearing a prior occupant defensively.
    pub fn set(&mut self, rank: u8, file: u8, piece: Piece)
        requires
            rank < 8,
            file < 8,
            old(self).wf(),
            !old(self).occ_all((rank * 8 + file) as u64),
        ensures
            final(self).wf(),
            forall|q: Piece, s: u64|
                s < 64 ==> #[trigger] final(self).spec_has(q, s) == (old(self).spec_has(q, s) || (q
                    == piece && s == (rank * 8 + file) as u64)),
            final(self).side_to_move == old(self).side_to_move,
            final(self).can_castle == old(self).can_castle,
    {
        let square = rank * 8 + file;
        let ghost sq = square as u64;
        let ghost prev = *self;

        let index = piece.index();
        let mut bitset = self.pieces[index];
        bitset.set_bit(square);
        self.pieces[index] = bitset;

        let mut all = self.occupied[0];
        all.set_bit(square);
        self.occupied[0] = all;

        let color_index = piece.color().index();
        let mut colored = self.occupied[color_index];
        colored.set_bit(square);
        self.occupied[color_index] = colored;

        proof {
            assert(forall|p: Piece| 0 <= #[trigger] p.spec_index() < 12);
            assert(forall|c: Color| 1 <= #[trigger] c.spec_index() <= 2);
            assert forall|q: Piece, s: u64| s < 64 implies #[trigger] self.spec_has(q, s) == (
            prev.spec_has(q, s) || (q == piece && s == sq)) by {
                if q.spec_index() == piece.spec_index() {
                    assert(q == piece);
                }
            }
            assert(forall|p: Piece| !prev.spec_has(p, sq));
            assert forall|s: u64| s < 64 implies (#[trigger] self.occ_all(s) <==> exists|p: Piece|
                self.spec_has(p, s)) by {
                if s == sq {
                    assert(self.spec_has(piece, s));
                } else {
                    assert(self.occ_all(s) == prev.occ_all(s));
                    if exists|p: Piece| prev.spec_has(p, s) {
                        let w = choose|p: Piece| prev.spec_has(p, s);
                        assert(self.spec_has(w, s));
                    }
                }
            }
            assert forall|c: Color, s: u64| s < 64 implies (#[trigger] self.occ_side(c, s) <==>
            exists|p: Piece| p.spec_color() == c && #[trigger] self.spec_has(p, s)) by {
                if s == sq && c == piece.spec_color() {
                    assert(self.spec_has(piece, s));
                } else {
                    assert(self.occ_side(c, s) == prev.occ_side(c, s));
                    if exists|p: Piece| p.spec_color() == c && prev.spec_has(p, s) {
                        let w = choose|p: Piece| p.spec_color() == c && prev.spec_has(p, s);
                        assert(self.spec_has(w, s));
                    }
                }
            }
        }
    }

    /// Removes `piece` from `rank * 8 + file`, the inverse of `set`:
    /// clears its bit and the matching occupancy bits.
    pub fn clear(&mut self, rank: u8, file: u8, piece: Piece)
        requires
            rank < 8,
            file < 8,
            old(self).wf(),
            old(self).spec_has(piece, (rank * 8 + file) as u64),
        ensures
            final(self).wf(),
            forall|q: Piece, s: u64|
                s < 64 ==> #[trigger] final(self).spec_has(q, s) == (old(self).spec_has(q, s) && !(q
                    == piece && s == (rank * 8 + file) as u64)),
            final(self).side_to_move == old(self).side_to_move,
            final(self).can_castle == old(self).can_castle,
    {
        let square = rank * 8 + file;
        let ghost sq = square as u64;
        let ghost prev = *self;

        let index = piece.index();
        let mut bitset = self.pieces[index];
        bitset.clear_bit(square);
        self.pieces[index] = bitset;

        let mut all = self.occupied[0];
        all.clear_bit(square);
        self.occupied[0] = all;

        let color_index = piece.color().index();
        let mut colored = self.occupied[color_index];
        colored.clear_bit(square);
        self.occupied[color_index] = colored;

        proof {
            assert(forall|p: Piece| 0 <= #[trigger] p.spec_index() < 12);
            assert(forall|c: Color| 1 <= #[trigger] c.spec_index() <= 2);
            assert forall|q: Piece, s: u64| s < 64 implies #[trigger] self.spec_has(q, s) == (
            prev.spec_has(q, s) && !(q == piece && s == sq)) by {
                if q.spec_index() == piece.spec_index() {
                    assert(q == piece);
                }
            }
            // Only `piece` occupied the square, so after the removal it is
            // empty and both touched occupancy bits go off.
            assert forall|q: Piece| #[trigger] prev.spec_has(q, sq) implies q == piece by {}
            assert forall|s: u64| s < 64 implies (#[trigger] self.occ_all(s) <==> exists|p: Piece|
                self.spec_has(p, s)) by {
                if s == sq {
                    assert(forall|p: Piece| !self.spec_has(p, s));
                } else {
                    assert(self.occ_all(s) == prev.occ_all(s));
                    if exists|p: Piece| prev.spec_has(p, s) {
                        let w = choose|p: Piece| prev.spec_has(p, s);
                        assert(self.spec_has(w, s));
                    }
                }
            }
            assert forall|c: Color, s: u64| s < 64 implies (#[trigger] self.occ_side(c, s) <==>
            exists|p: Piece| p.spec_color() == c && #[trigger] self.spec_has(p, s)) by {
                if s == sq {
                    assert(forall|p: Piece| !self.spec_has(p, s));
                    if c != piece.spec_color() {
                        assert(self.occ_side(c, s) == prev.occ_side(c, s));
                        assert(forall|p: Piece|
                            p.spec_color() == c && prev.spec_has(p, s) ==> p == piece);
                    }
                } else {
                    assert(self.occ_side(c, s) == prev.occ_side(c, s));
                    if exists|p: Piece| p.spec_color() == c && prev.spec_has(p, s) {
                        let w = choose|p: Piece| p.spec_color() == c && prev.spec_has(p, s);
                        assert(self.spec_has(w, s));
                    }
                }
            }
        }
    }

    /// Reports the piece identity occupying the square, or `None`, by
    /// scanning the 12 piece sets.  Well-formedness makes the scan
    /// deterministic: at most one set can hold the bit.
    pub fn get(&self, rank: u8, file: u8) -> (r: Option<Piece>)
        requires
            self.wf(),
            rank < 8,
            file < 8,
        ensures
            r == self.spec_get((rank * 8 + file) as u64),
    {
        let square = rank * 8 + file;
        let mut index: usize = 0;
        while index < 12
            invariant
                self.wf(),
                square == rank * 8 + file,
                rank < 8,
                file < 8,
                index <= 12,
                forall|p: Piece| #[trigger] p.spec_index() < index ==> !self.spec_has(
                    p,
                    square as u64,
                ),
            decreases 12 - index,
        {
            if self.pieces[index].is_bit_set(square) {
                let piece = Piece::from_index(index);
                proof {
                    let p = Piece::spec_from_index(index as int).unwrap();
                    assert(self.spec_has(p, square as u64));
                    self.lemma_get_some(p, square as u64);
                }
                return piece;
            }
            proof {
                assert forall|p: Piece| #[trigger] p.spec_index() < index + 1 implies !self
                    .spec_has(p, square as u64) by {
                    if p.spec_index() == index {
                        assert(Piece::spec_from_index(index as int) == Some(p));
                    }
                }
            }
            index += 1;
        }
        proof {
            assert(forall|p: Piece| 0 <= #[trigger] p.spec_index() < 12);
            self.lemma_get_none(square as u64);
        }
        None
    }
    /// Builds a position from a six-field, space-separated descriptor
    /// string.  Succeeds exactly when the descriptor's bytes satisfy the
    /// `spec_parse_fen` rule; on failure no partial position escapes.  On
    /// success the returned position carries exactly the parsed placement,
    /// side to move and castling rights.
    #[verifier::loop_isolation(false)]
    pub fn from_fen(fen: &str) -> (r: Option<Board>)
        ensures
            match spec_parse_fen(fen.spec_bytes()) {
                None => r is None,
                Some(parsed) => {
                    &&& r is Some
                    &&& r.unwrap().wf()
                    &&& forall|sq: u64|
                        sq < 64 ==> #[trigger] r.unwrap().spec_get(sq) == (if parsed.0.contains_key(
                            sq,
                        ) {
                            Some(parsed.0[sq])
                        } else {
                            None
                        })
                    &&& r.unwrap().side_to_move == parsed.1
                    &&& forall|n: int|
                        0 <= n < 4 ==> #[trigger] r.unwrap().can_castle[n] == parsed.2[n]
                },
            },
    {
        let bytes = fen.as_bytes();
        let ghost s = bytes@;
        let fields = split_fields(bytes);
        if fields.len() != 6 {
            return None;
        }
        let mut board = Board::new();

        // Field 0: piece placement.
        let (p_start, p_end) = fields[0];
        let position = vstd::slice::slice_subrange(bytes, p_start, p_end);
        let ghost pseq = position@;
        proof {
            assert(pseq == split_bytes(s, 32)[0]);
            assert(pseq.skip(0) =~= pseq);
        }

        let mut rank: u8 = 0;
        let mut file: u8 = 0;
        let ghost mut acc: Map<u64, Piece> = Map::empty();
        let mut i: usize = 0;
        while i < position.len()
            invariant
                position@ == pseq,
                i <= pseq.len(),
                board.wf(),
                board.side_to_move == Color::White,
                forall|n: int| 0 <= n < 4 ==> board.can_castle[n],
                rank <= 8,
                file <= 8,
                parse_placement(pseq, 0, 0, Map::empty()) == parse_placement(
                    pseq.skip(i as int),
                    rank as int,
                    file as int,
                    acc,
                ),
                forall|q: Piece, sq: u64|
                    sq < 64 ==> #[trigger] board.spec_has(q, sq) == (acc.contains_key(sq) && acc[sq]
                        == q),
                forall|sq: u64|
                    #[trigger] acc.contains_key(sq) ==> sq < 64 && (sq as int) < rank as int * 8
                        + file as int,
            decreases pseq.len() - i,
        {
            let c = position[i];
            proof {
                assert(pseq.skip(i as int).len() > 0);
                assert(pseq.skip(i as int)[0] == c);
                assert(pseq.skip(i as int).skip(1) =~= pseq.skip(i as int + 1));
            }
            if c == 47 {
                if file > 8 || rank >= 8 {
                    return None;
                }
                rank = rank + 1;
                file = 0;
            } else if let Some(piece) = Piece::from_char(c as char) {
                if rank < 8 && file < 8 {
                    proof {
                        assert(!board.occ_all(square(rank as int, file as int))) by {
                            if board.occ_all(square(rank as int, file as int)) {
                                let w = choose|q: Piece|
                                    board.spec_has(q, square(rank as int, file as int));
                                assert(acc.contains_key(square(rank as int, file as int)));
                            }
                        }
                    }
                    board.set(rank, file, piece);
                    proof {
                        acc = acc.insert(square(rank as int, file as int), piece);
                    }
                    file = file + 1;
                } else {
                    return None;
                }
            } else if 49 <= c && c <= 56 {
                file = file + (c - 48);
                if file > 8 {
                    proof {
                        lemma_placement_file_overflow(
                            pseq.skip(i as int + 1),
                            rank as int,
                            file as int,
                            acc,
                        );
                    }
                    return None;
                }
            } else {
                return None;
            }
            i += 1;
        }
        proof {
            assert(pseq.skip(i as int).len() == 0);
        }
        if file > 8 || rank >= 8 {
            return None;
        }
        let ghost placed = board;
        proof {
            assert(parse_placement(pseq, 0, 0, Map::empty()) == Some(acc));
        }

        // Field 1: side to move.
        let (side_start, side_end) = fields[1];
        let side_field = vstd::slice::slice_subrange(bytes, side_start, side_end);
        proof {
            assert(side_field@ == split_bytes(s, 32)[1]);
        }
        if side_field.len() == 1 && side_field[0] == 119 {
            board.side_to_move = Color::White;
            proof {
                assert(side_field@ =~= seq![119u8]);
            }
        } else if side_field.len() == 1 && side_field[0] == 98 {
            board.side_to_move = Color::Black;
            proof {
                assert(side_field@ =~= seq![98u8]);
            }
        } else {
            proof {
                if side_field@ == seq![119u8] {
                    assert(side_field@.len() == 1 && side_field@[0] == 119);
                }
                if side_field@ == seq![98u8] {
                    assert(side_field@.len() == 1 && side_field@[0] == 98);
                }
            }
            return None;
        }

        // Field 2: castling rights, over flags that start all false.
        board.can_castle = [false, false, false, false];
        let ghost base = board;
        let (castle_start, castle_end) = fields[2];
        let castle_field = vstd::slice::slice_subrange(bytes, castle_start, castle_end);
        let ghost cseq = castle_field@;
        proof {
            assert(cseq == split_bytes(s, 32)[2]);
            assert(board.can_castle@ =~= seq![false, false, false, false]);
            assert(cseq.skip(0) =~= cseq);
        }
        let mut j: usize = 0;
        let mut failed = false;
        #[verifier::loop_isolation(true)]
        loop
            invariant_except_break
                castle_field@ == cseq,
                j <= cseq.len(),
                !failed,
                board.pieces == base.pieces,
                board.occupied == base.occupied,
                board.side_to_move == base.side_to_move,
                parse_castle(cseq, seq![false, false, false, false]) == parse_castle(
                    cseq.skip(j as int),
                    board.can_castle@,
                ),
            ensures
                board.pieces == base.pieces,
                board.occupied == base.occupied,
                board.side_to_move == base.side_to_move,
                !failed ==> parse_castle(cseq, seq![false, false, false, false]) == Some(
                    board.can_castle@,
                ),
                failed ==> parse_castle(cseq, seq![false, false, false, false]) is None,
            decreases cseq.len() - j,
        {
            if j >= castle_field.len() {
                break;
            }
            let c = castle_field[j];
            proof {
                assert(cseq.skip(j as int).len() > 0);
                assert(cseq.skip(j as int)[0] == c);
                assert(cseq.skip(j as int).skip(1) =~= cseq.skip(j as int + 1));
            }
            if c == 45 {
                break;
            }
            let ghost flags = board.can_castle@;
            if c == 75 {
                board.can_castle[0] = true;
                proof {
                    assert(board.can_castle@ =~= flags.update(0, true));
                }
            } else if c == 81 {
                board.can_castle[1] = true;
                proof {
                    assert(board.can_castle@ =~= flags.update(1, true));
                }
            } else if c == 107 {
                board.can_castle[2] = true;
                proof {
                    assert(board.can_castle@ =~= flags.update(2, true));
                }
            } else if c == 113 {
                board.can_castle[3] = true;
                proof {
                    assert(board.can_castle@ =~= flags.update(3, true));
                }
            } else {
                failed = true;
                break;
            }
            j += 1;
        }
        if failed {
            return None;
        }

        proof {
            Board::lemma_same_sets(placed, board);
            assert(spec_parse_fen(s) matches Some(parsed) && parsed.0 == acc && parsed.1
                == board.side_to_move && parsed.2 == board.can_castle@);
            assert forall|sq: u64| sq < 64 implies #[trigger] board.spec_get(sq) == (
            if acc.contains_key(sq) {
                Some(acc[sq])
            } else {
                None
            }) by {
                if acc.contains_key(sq) {
                    assert(board.spec_has(acc[sq], sq));
                    board.lemma_get_some(acc[sq], sq);
                } else {
                    assert(forall|q: Piece| !board.spec_has(q, sq));
                    board.lemma_get_none(sq);
                }
            }
        }
        Some(board)
    }

    /// Applies a proposed move.  The destination is validated against the
    /// freshly generated targets of the origin; a destination outside them
    /// is rejected and the position left untouched.  An accepted move
    /// relocates the piece, removes a captured piece, relocates the rook and
    /// clears both rights on a castle, revokes rights on king and rook
    /// moves, and flips the side to move.
    pub fn make_move(&mut self, chess_move: &Move) -> (r: Result<(), InvalidMove>)
        requires
            old(self).wf(),
            move_wf(*old(self), *chess_move),
        ensures
            final(self).wf(),
            r is Err <==> !spec_reachable(
                *old(self),
                chess_move.from.0 as int,
                chess_move.from.1 as int,
                square(chess_move.to.0 as int, chess_move.to.1 as int),
            ),
            r is Err ==> *final(self) == *old(self),
            r is Ok ==> {
                &&& forall|q: Piece, s: u64|
                    s < 64 ==> #[trigger] final(self).spec_has(q, s) == after_move_has(
                        *old(self),
                        *chess_move,
                        q,
                        s,
                    )
                &&& final(self).side_to_move == old(self).side_to_move.spec_opposite()
                &&& forall|i: int|
                    0 <= i < 4 ==> #[trigger] final(self).can_castle[i] == after_move_castle(
                        *old(self),
                        *chess_move,
                        i,
                    )
            },
    {
        let from = chess_move.from;
        let to = chess_move.to;
        let piece = chess_move.piece;

        let valid = valid_moves(self, &from);
        if !valid.is_bit_set(to.0 * 8 + to.1) {
            return Err(InvalidMove);
        }

        let ghost prev = *self;
        let ghost from_sq = square(from.0 as int, from.1 as int);
        let ghost to_sq = square(to.0 as int, to.1 as int);
        proof {
            assert((to.0 * 8 + to.1) as u64 == to_sq);
            prev.lemma_get_has(piece, from_sq);
            // The origin holds a piece of the side to move while the
            // destination never does, so the two squares differ.
            assert(piece.spec_color() == prev.side_to_move);
            assert(prev.occ_side(prev.side_to_move, from_sq));
            lemma_reach_not_own(prev, from.0 as int, from.1 as int, to_sq);
            assert(from_sq != to_sq);
        }

        self.clear(from.0, from.1, piece);
        let ghost mut placed: Board = *self;

        match chess_move.move_type {
            MoveType::Normal => {
                proof {
                    assert(forall|q: Piece| !prev.spec_has(q, to_sq));
                    assert(forall|q: Piece| !self.spec_has(q, to_sq));
                }
                self.set(to.0, to.1, piece);
                proof {
                    placed = *self;
                    assert forall|q: Piece, s: u64| s < 64 implies #[trigger] placed.spec_has(q, s)
                        == after_move_has(prev, *chess_move, q, s) by {
                        if s == from_sq && prev.spec_has(q, s) {
                            assert(q == piece);
                        }
                    }
                }

                if piece == Piece::WhiteKing {
                    self.can_castle[0] = false;
                    self.can_castle[1] = false;
                } else if piece == Piece::BlackKing {
                    self.can_castle[2] = false;
                    self.can_castle[3] = false;
                } else if piece == Piece::WhiteRook {
                    if from.1 == 7 {
                        self.can_castle[0] = false;
                    } else if from.1 == 0 {
                        self.can_castle[1] = false;
                    }
                } else if piece == Piece::BlackRook {
                    if from.1 == 7 {
                        self.can_castle[2] = false;
                    } else if from.1 == 0 {
                        self.can_castle[3] = false;
                    }
                }
            },
            MoveType::Capture(capture) => {
                proof {
                    prev.lemma_get_has(capture, to_sq);
                    assert(self.spec_has(capture, to_sq));
                }
                // The captured piece leaves its square before the mover
                // lands there, keeping the occupancy mirrors exact.
                self.clear(to.0, to.1, capture);
                proof {
                    assert forall|q: Piece| !#[trigger] self.spec_has(q, to_sq) by {
                        if prev.spec_has(q, to_sq) {
                            assert(q == capture);
                        }
                    }
                }
                self.set(to.0, to.1, piece);
                proof {
                    placed = *self;
                    assert forall|q: Piece, s: u64| s < 64 implies #[trigger] placed.spec_has(q, s)
                        == after_move_has(prev, *chess_move, q, s) by {
                        if s == from_sq && prev.spec_has(q, s) {
                            assert(q == piece);
                        }
                    }
                }
            },
            MoveType::Castling => {
                proof {
                    lemma_castle_move_is_castle(prev, *chess_move);
                }
                let rook = if self.side_to_move == Color::White {
                    Piece::WhiteRook
                } else {
                    Piece::BlackRook
                };
                let ghost home = home_rank(prev.side_to_move);
                proof {
                    assert(rook == side_rook(prev.side_to_move));
                    if to.1 == 6 {
                        if to_sq == square(home, 2) {
                            lemma_square_injective(to.0 as int, to.1 as int, home, 2);
                        }
                        assert(!prev.occ_all(square(home, 6)));
                    } else {
                        if to_sq == square(home, 6) {
                            lemma_square_injective(to.0 as int, to.1 as int, home, 6);
                        }
                        assert(!prev.occ_all(square(home, 2)));
                    }
                    assert(!prev.occ_all(to_sq));
                    assert(forall|q: Piece| !prev.spec_has(q, to_sq));
                    assert(forall|q: Piece| !self.spec_has(q, to_sq));
                }
                self.set(to.0, to.1, piece);

                if to.1 == 6 {
                    proof {
                        assert(prev.spec_has(rook, square(home, 7)));
                        lemma_square_injective(to.0 as int, to.1 as int, home, 6);
                        assert(self.spec_has(rook, square(home, 7)));
                    }
                    self.clear(to.0, 7, rook);
                    proof {
                        assert(!prev.occ_all(square(home, 5)));
                        assert(forall|q: Piece| !prev.spec_has(q, square(home, 5)));
                        assert(forall|q: Piece| !self.spec_has(q, square(home, 5)));
                        assert((to.0 * 8 + 5) as u64 == square(home, 5));
                    }
                    self.set(to.0, 5, rook);
                } else {
                    proof {
                        assert(prev.spec_has(rook, square(home, 0)));
                        lemma_square_injective(to.0 as int, to.1 as int, home, 2);
                        assert(self.spec_has(rook, square(home, 0)));
                    }
                    self.clear(to.0, 0, rook);
                    proof {
                        assert(!prev.occ_all(square(home, 3)));
                        assert(forall|q: Piece| !prev.spec_has(q, square(home, 3)));
                        assert(forall|q: Piece| !self.spec_has(q, square(home, 3)));
                        assert((to.0 * 8 + 3) as u64 == square(home, 3));
                    }
                    self.set(to.0, 3, rook);
                }
                proof {
                    placed = *self;
                    assert forall|q: Piece, s: u64| s < 64 implies #[trigger] placed.spec_has(q, s)
                        == after_move_has(prev, *chess_move, q, s) by {
                        if s == from_sq && prev.spec_has(q, s) {
                            assert(q == piece);
                        }
                    }
                }

                let side_index = self.side_to_move.index();
                let king_castle_index = 2 * side_index - 2;
                let queen_castle_index = 2 * side_index - 1;
                self.can_castle[king_castle_index] = false;
                self.can_castle[queen_castle_index] = false;
            },
        }

        self.side_to_move = self.side_to_move.opposite();
        proof {
            Board::lemma_same_sets(placed, *self);
        }
        Ok(())
    }
}

/// Cuts a byte string at every space, returning the fields of
/// `split_bytes` as index ranges into it.
pub(crate) fn split_fields(bytes: &[u8]) -> (fields: Vec<(usize, usize)>)
    ensures
        fields@.len() == split_bytes(bytes@, 32).len(),
        forall|j: int|
            0 <= j < fields@.len() ==> 0 <= (#[trigger] fields@[j]).0 <= fields@[j].1
                <= bytes@.len() && split_bytes(bytes@, 32)[j] == bytes@.subrange(
                fields@[j].0 as int,
                fields@[j].1 as int,
            ),
{
    let ghost full = split_bytes(bytes@, 32);
    let mut fields: Vec<(usize, usize)> = Vec::new();
    let mut cur_start: usize = 0;
    let mut i: usize = 0;
    proof {
        lemma_split_len(bytes@, 32);
        assert(bytes@.skip(0) =~= bytes@);
        assert(bytes@.subrange(0, 0) =~= Seq::<u8>::empty());
        assert(Seq::<u8>::empty() + full[0] =~= full[0]);
    }
    while i < bytes.len()
        invariant
            full == split_bytes(bytes@, 32),
            cur_start <= i <= bytes@.len(),
            fields@.len() + split_bytes(bytes@.skip(i as int), 32).len() == full.len(),
            forall|j: int|
                0 <= j < fields@.len() ==> 0 <= (#[trigger] fields@[j]).0 <= fields@[j].1
                    <= bytes@.len() && full[j] == bytes@.subrange(
                    fields@[j].0 as int,
                    fields@[j].1 as int,
                ),
            full[fields@.len() as int] == bytes@.subrange(cur_start as int, i as int)
                + split_bytes(bytes@.skip(i as int), 32)[0],
            forall|j: int|
                1 <= j < split_bytes(bytes@.skip(i as int), 32).len() ==> full[fields@.len() + j]
                    == #[trigger] split_bytes(bytes@.skip(i as int), 32)[j],
        decreases bytes@.len() - i,
    {
        proof {
            assert(bytes@.skip(i as int).len() > 0);
            assert(bytes@.skip(i as int)[0] == bytes@[i as int]);
            assert(bytes@.skip(i as int).skip(1) =~= bytes@.skip(i as int + 1));
            lemma_split_len(bytes@.skip(i as int + 1), 32);
        }
        let ghost rest_here = split_bytes(bytes@.skip(i as int), 32);
        let ghost rest_next = split_bytes(bytes@.skip(i as int + 1), 32);
        if bytes[i] == 32 {
            proof {
                assert(rest_here == seq![Seq::<u8>::empty()] + rest_next);
                assert(rest_here[0] == Seq::<u8>::empty());
                assert(bytes@.subrange(cur_start as int, i as int) + Seq::<u8>::empty()
                    =~= bytes@.subrange(cur_start as int, i as int));
                // the field just ended is exactly the bytes since its start
                assert(full[fields@.len() as int] == bytes@.subrange(cur_start as int, i as int));
                // the next field begins empty at the next byte
                assert(rest_here.len() >= 2);
                assert(full[fields@.len() as int + 1] == rest_here[1]);
                assert(rest_here[1] == rest_next[0]);
            }
            fields.push((cur_start, i));
            cur_start = i + 1;
            proof {
                assert(bytes@.subrange(cur_start as int, i as int + 1) =~= Seq::<u8>::empty());
                assert(Seq::<u8>::empty() + rest_next[0] =~= rest_next[0]);
                assert forall|j: int| 1 <= j < rest_next.len() implies full[fields@.len() + j]
                    == #[trigger] rest_next[j] by {
                    assert(full[fields@.len() as int - 1 + j + 1] == rest_here[j + 1]);
                    assert(rest_here[j + 1] == rest_next[j]);
                }
            }
        } else {
            proof {
                assert(rest_here == seq![seq![bytes@[i as int]] + rest_next[0]]
                    + rest_next.skip(1));
                assert(rest_here[0] == seq![bytes@[i as int]] + rest_next[0]);
                assert(bytes@.subrange(cur_start as int, i as int) + (seq![bytes@[i as int]]
                    + rest_next[0]) =~= bytes@.subrange(cur_start as int, i as int + 1)
                    + rest_next[0]);
                assert(rest_here.len() == rest_next.len());
                assert forall|j: int| 1 <= j < rest_next.len() implies full[fields@.len() + j]
                    == #[trigger] rest_next[j] by {
                    assert(full[fields@.len() + j] == rest_here[j]);
                    assert(rest_here[j] == rest_next.skip(1)[j - 1]);
                    assert(rest_next.skip(1)[j - 1] == rest_next[j]);
                }
            }
        }
        i += 1;
    }
    proof {
        assert(bytes@.skip(i as int).len() == 0);
        assert(bytes@.subrange(cur_start as int, i as int) + Seq::<u8>::empty() =~= bytes@.subrange(
            cur_start as int,
            i as int,
        ));
    }
    fields.push((cur_start, bytes.len()));
    fields
}

/// The piece placement after an accepted move: the origin square is
/// emptied, the destination holds the moving piece alone (displacing any
/// captured piece), and a castle also relocates the side's rook from its
/// home corner to the far side of the king.
pub open spec fn after_move_has(b: Board, m: Move, q: Piece, s: u64) -> bool {
    let from_sq = square(m.from.0 as int, m.from.1 as int);
    let to_sq = square(m.to.0 as int, m.to.1 as int);
    match m.move_type {
        MoveType::Normal | MoveType::Capture(_) => if s == from_sq {
            false
        } else if s == to_sq {
            q == m.piece
        } else {
            b.spec_has(q, s)
        },
        MoveType::Castling => {
            let home = m.from.0 as int;
            let rook = side_rook(b.side_to_move);
            let rook_from = if m.to.1 == 6 {
                square(home, 7)
            } else {
                square(home, 0)
            };
            let rook_to = if m.to.1 == 6 {
                square(home, 5)
            } else {
                square(home, 3)
            };
            if s == from_sq {
                false
            } else if s == to_sq {
                q == m.piece
            } else if s == rook_from {
                false
            } else if s == rook_to {
                q == rook
            } else {
                b.spec_has(q, s)
            }
        },
    }
}

/// The castling-rights flags after an accepted move: a castle clears both
/// of the mover's flags; an ordinary king move clears both of its side's
/// flags and an ordinary rook move the flag matching its departure file;
/// flags never come back.
pub open spec fn after_move_castle(b: Board, m: Move, i: int) -> bool {
    let c = b.side_to_move;
    match m.move_type {
        MoveType::Capture(_) => b.can_castle[i],
        MoveType::Castling => !(i == kingside_flag(c) || i == queenside_flag(c))
            && b.can_castle[i],
        MoveType::Normal => {
            let cleared = (m.piece == Piece::WhiteKing && (i == 0 || i == 1)) || (m.piece
                == Piece::BlackKing && (i == 2 || i == 3)) || (m.piece == Piece::WhiteRook && ((
            m.from.1 == 7 && i == 0) || (m.from.1 == 0 && i == 1))) || (m.piece == Piece::BlackRook
                && ((m.from.1 == 7 && i == 2) || (m.from.1 == 0 && i == 3)));
            !cleared && b.can_castle[i]
        },
    }
}

/// Splits a byte sequence at every occurrence of `sep`.  Splitting never
/// yields an empty list: an empty input gives one empty field, and each
/// separator ends a field, so adjacent separators produce empty fields.
pub open spec fn split_bytes(s: Seq<u8>, sep: u8) -> Seq<Seq<u8>>
    decreases s.len(),
{
    if s.len() == 0 {
        seq![Seq::<u8>::empty()]
    } else if s[0] == sep {
        seq![Seq::<u8>::empty()] + split_bytes(s.skip(1), sep)
    } else {
        let rest = split_bytes(s.skip(1), sep);
        seq![seq![s[0]] + rest[0]] + rest.skip(1)
    }
}

pub proof fn lemma_split_len(s: Seq<u8>, sep: u8)
    ensures
        split_bytes(s, sep).len() >= 1,
    decreases s.len(),
{
    if s.len() > 0 {
        lemma_split_len(s.skip(1), sep);
    }
}

/// The byte is one of the twelve piece letters.
pub open spec fn is_fen_piece_byte(c: u8) -> bool {
    Piece::spec_from_char(c as char) is Some
}

pub open spec fn fen_piece_of_byte(c: u8) -> Piece
    recommends
        is_fen_piece_byte(c),
{
    Piece::spec_from_char(c as char).unwrap()
}

/// Parses the piece-placement field of a descriptor, walking its bytes
/// with a cursor of rank and file.  A piece letter puts that piece on the
/// cursor square, a digit skips that many files, and a `/` ends the rank,
/// which must not have run past eight files, nor may a ninth rank start.
/// Any other byte, or a piece letter landing off the board, fails.
pub open spec fn parse_placement(s: Seq<u8>, rank: int, file: int, acc: Map<u64, Piece>) -> Option<
    Map<u64, Piece>,
>
    decreases s.len(),
{
    if s.len() == 0 {
        if file > 8 || rank >= 8 {
            None
        } else {
            Some(acc)
        }
    } else {
        let c = s[0];
        if c == 47 {
            if file > 8 || rank >= 8 {
                None
            } else {
                parse_placement(s.skip(1), rank + 1, 0, acc)
            }
        } else if is_fen_piece_byte(c) {
            if rank < 8 && file < 8 {
                parse_placement(
                    s.skip(1),
                    rank,
                    file + 1,
                    acc.insert(square(rank, file), fen_piece_of_byte(c)),
                )
            } else {
                None
            }
        } else if 49 <= c <= 56 {
            parse_placement(s.skip(1), rank, file + (c - 48), acc)
        } else {
            None
        }
    }
}

/// A rank that has already run past eight files can never parse: the file
/// cursor only grows until the rank ends, where the overrun is rejected.
pub proof fn lemma_placement_file_overflow(s: Seq<u8>, rank: int, file: int, acc: Map<u64, Piece>)
    requires
        file > 8,
    ensures
        parse_placement(s, rank, file, acc) is None,
    decreases s.len(),
{
    if s.len() > 0 {
        let c = s[0];
        if 49 <= c <= 56 {
            lemma_placement_file_overflow(s.skip(1), rank, file + (c - 48), acc);
        }
    }
}

/// Parses the side-to-move field: the single letter `w` or `b`.
pub open spec fn parse_side(s: Seq<u8>) -> Option<Color> {
    if s == seq![119u8] {
        Some(Color::White)
    } else if s == seq![98u8] {
        Some(Color::Black)
    } else {
        None
    }
}

/// Parses the castling-rights field over flags that start all false: each
/// letter among `KQkq` switches its flag on, a `-` stops the scan, and any
/// other byte fails.
pub open spec fn parse_castle(s: Seq<u8>, acc: Seq<bool>) -> Option<Seq<bool>>
    decreases s.len(),
{
    if s.len() == 0 {
        Some(acc)
    } else if s[0] == 45 {
        Some(acc)
    } else if s[0] == 75 {
        parse_castle(s.skip(1), acc.update(0, true))
    } else if s[0] == 81 {
        parse_castle(s.skip(1), acc.update(1, true))
    } else if s[0] == 107 {
        parse_castle(s.skip(1), acc.update(2, true))
    } else if s[0] == 113 {
        parse_castle(s.skip(1), acc.update(3, true))
    } else {
        None
    }
}

/// The full descriptor rule: exactly six space-separated fields, of which
/// the first three parse as placement, side to move and castling rights;
/// the last three are accepted without interpretation.
pub open spec fn spec_parse_fen(s: Seq<u8>) -> Option<(Map<u64, Piece>, Color, Seq<bool>)> {
    let fields = split_bytes(s, 32);
    if fields.len() != 6 {
        None
    } else {
        match parse_placement(fields[0], 0, 0, Map::empty()) {
            None => None,
            Some(placement) => match parse_side(fields[1]) {
                None => None,
                Some(side) => match parse_castle(
                    fields[2],
                    seq![false, false, false, false],
                ) {
                    None => None,
                    Some(castle) => Some((placement, side, castle)),
                },
            },
        }
    }
}

/// Castling rights are monotone: a flag that survives a move was set
/// before it, so a cleared flag never comes back.
pub proof fn lemma_rights_monotone(b: Board, m: Move, i: int)
    requires
        0 <= i < 4,
        after_move_castle(b, m, i),
    ensures
        b.can_castle[i],
{
}

/// Querying a square twice with no mutation in between reports the same
/// identity: the query is a function of the position alone.
pub proof fn lemma_query_idempotent(b: Board, sq: u64, r1: Option<Piece>, r2: Option<Piece>)
    requires
        r1 == b.spec_get(sq),
        r2 == b.spec_get(sq),
    ensures
        r1 == r2,
{
}

} // verus!
