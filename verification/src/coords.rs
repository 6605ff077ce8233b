//! Algebraic-coordinate decoding and encoding, and the assembly of move
//! values from coordinate pairs.

use vstd::prelude::*;

use crate::bitset::Bitset;
use crate::board::Board;
use crate::movegen::{
    castle_pattern, is_king, move_wf, on_board, spec_reachable, square, valid_moves, Move,
    MoveType,
};
use crate::piece::Piece;
use vstd::string::StringExecFns;
use vstd::string::StringSliceAdditionalSpecFns;

verus! {

/// Decoding of a two-character algebraic coordinate: a file letter `a`
/// through `h` then a rank digit `1` through `8`, mapping to the (rank,
/// file) indices of the square scheme.  Anything else decodes to nothing.
pub open spec fn spec_pos_to_index(s: Seq<u8>) -> Option<(u8, u8)> {
    if s.len() == 2 && 97 <= s[0] <= 104 && 49 <= s[1] <= 56 {
        Some((((56 - s[1]) as u8, (s[0] - 97) as u8)))
    } else {
        None
    }
}

/// Decodes an algebraic coordinate such as `e4` to its (rank, file) pair;
/// out-of-range letters or digits, or the wrong length, decode to `None`
/// rather than to any default square.
pub fn pos_to_index(pos: &str) -> (r: Option<(u8, u8)>)
    ensures
        r == spec_pos_to_index(pos.spec_bytes()),
        r matches Some(p) ==> p.0 < 8 && p.1 < 8,
{
    let bytes = pos.as_bytes();
    if bytes.len() != 2 {
        return None;
    }
    let file = bytes[0];
    let rank = bytes[1];
    if 97 <= file && file <= 104 && 49 <= rank && rank <= 56 {
        Some((56 - rank, file - 97))
    } else {
        None
    }
}

/// The two characters that encode an on-board coordinate: its file letter
/// then its rank digit.
pub open spec fn spec_coord_chars(rank: int, file: int) -> Seq<char>
    recommends
        on_board(rank, file),
{
    seq![((97 + file) as u8) as char, ((56 - rank) as u8) as char]
}

/// The file letter of an on-board file index.
fn file_str(file: u8) -> (r: &'static str)
    requires
        file < 8,
    ensures
        r@ == seq![((97 + file) as u8) as char],
{
    let r: &'static str = match file {
        0 => "a",
        1 => "b",
        2 => "c",
        3 => "d",
        4 => "e",
        5 => "f",
        6 => "g",
        _ => "h",
    };
    proof {
        reveal_strlit("a");
        reveal_strlit("b");
        reveal_strlit("c");
        reveal_strlit("d");
        reveal_strlit("e");
        reveal_strlit("f");
        reveal_strlit("g");
        reveal_strlit("h");
        assert(r@ =~= seq![((97 + file) as u8) as char]);
    }
    r
}

/// The rank digit of an on-board rank index: rank 0 prints as `8`, rank 7
/// as `1`.
fn rank_str(rank: u8) -> (r: &'static str)
    requires
        rank < 8,
    ensures
        r@ == seq![((56 - rank) as u8) as char],
{
    let r: &'static str = match rank {
        0 => "8",
        1 => "7",
        2 => "6",
        3 => "5",
        4 => "4",
        5 => "3",
        6 => "2",
        _ => "1",
    };
    proof {
        reveal_strlit("8");
        reveal_strlit("7");
        reveal_strlit("6");
        reveal_strlit("5");
        reveal_strlit("4");
        reveal_strlit("3");
        reveal_strlit("2");
        reveal_strlit("1");
        assert(r@ =~= seq![((56 - rank) as u8) as char]);
    }
    r
}

/// Encodes an on-board (rank, file) pair as its algebraic coordinate; an
/// off-board pair encodes to `None`.
pub fn index_to_pos(index: (u8, u8)) -> (r: Option<String>)
    ensures
        index.0 < 8 && index.1 < 8 ==> (r matches Some(s) && s@ == spec_coord_chars(
            index.0 as int,
            index.1 as int,
        )),
        !(index.0 < 8 && index.1 < 8) ==> r is None,
{
    if index.0 < 8 && index.1 < 8 {
        let text = String::from_str(file_str(index.1)).concat(rank_str(index.0));
        proof {
            assert(text@ =~= spec_coord_chars(index.0 as int, index.1 as int));
        }
        Some(text)
    } else {
        None
    }
}

/// The number of members of `b` with index below `n`.
pub open spec fn count_below(b: Bitset, n: int) -> nat
    decreases n,
{
    if n <= 0 {
        0
    } else {
        count_below(b, n - 1) + if b.spec_bit((n - 1) as u64) {
            1nat
        } else {
            0nat
        }
    }
}

pub proof fn lemma_count_below_mono(b: Bitset, i: int, j: int)
    requires
        i <= j,
    ensures
        count_below(b, i) <= count_below(b, j),
    decreases j - i,
{
    if i < j {
        lemma_count_below_mono(b, i, j - 1);
    }
}

/// Lists the member squares of a square set as algebraic coordinates, in
/// ascending square order: entry `count_below(b, sq)` describes member
/// `sq`.
pub fn bitset_to_pos(bitset: Bitset) -> (r: Vec<String>)
    ensures
        r@.len() == count_below(bitset, 64),
        forall|sq: u64|
            sq < 64 && #[trigger] bitset.spec_bit(sq) ==> r@[count_below(bitset, sq as int) as int]@
                == spec_coord_chars(sq as int / 8, sq as int % 8),
{
    let mut result: Vec<String> = Vec::new();
    for square in 0..64u8
        invariant
            result@.len() == count_below(bitset, square as int),
            forall|sq: u64|
                sq < square && #[trigger] bitset.spec_bit(sq) ==> result@[count_below(
                    bitset,
                    sq as int,
                ) as int]@ == spec_coord_chars(sq as int / 8, sq as int % 8),
    {
        if bitset.is_bit_set(square) {
            let rank = square / 8;
            let file = square % 8;
            let pos = index_to_pos((rank, file));
            proof {
                assert(pos is Some);
            }
            result.push(pos.unwrap());
            proof {
                assert forall|sq: u64| sq < square + 1 && #[trigger] bitset.spec_bit(sq)
                    implies result@[count_below(bitset, sq as int) as int]@ == spec_coord_chars(
                    sq as int / 8,
                    sq as int % 8,
                ) by {
                    if sq < square as u64 {
                        lemma_count_below_mono(bitset, sq as int + 1, square as int);
                        assert(count_below(bitset, sq as int) < count_below(bitset, square as int));
                    } else {
                        assert(count_below(bitset, sq as int) == result@.len() - 1);
                    }
                }
            }
        }
    }
    result
}

/// The move value read off the board for a coordinate pair: the piece on
/// the origin, with castling kind for a king moving along a castle
/// pattern, capture kind naming the piece on the destination, and
/// ordinary kind otherwise.
pub open spec fn spec_parse_move(b: Board, from: (u8, u8), to: (u8, u8)) -> Move {
    let piece = b.spec_get(square(from.0 as int, from.1 as int)).unwrap();
    let at_to = b.spec_get(square(to.0 as int, to.1 as int));
    Move {
        from,
        to,
        piece,
        move_type: if castle_pattern(from, to) && is_king(piece) {
            MoveType::Castling
        } else if at_to is Some {
            MoveType::Capture(at_to.unwrap())
        } else {
            MoveType::Normal
        },
    }
}

/// What `parse_move` reads off the board is a well-formed move.
pub proof fn lemma_parse_move_wf(b: Board, from: (u8, u8), to: (u8, u8))
    requires
        b.wf(),
        from.0 < 8,
        from.1 < 8,
        to.0 < 8,
        to.1 < 8,
        b.spec_get(square(from.0 as int, from.1 as int)) is Some,
    ensures
        move_wf(b, spec_parse_move(b, from, to)),
{
}

/// Ordering key of a move in the generator's enumeration: origin square
/// first, then destination square within it.
pub open spec fn move_key(m: Move) -> int {
    (m.from.0 as int * 8 + m.from.1 as int) * 64 + (m.to.0 as int * 8 + m.to.1 as int)
}

/// All moves open to the side to move: exactly the coordinate pairs the
/// generator accepts, each read off the board as `parse_move` reads it,
/// enumerated by ascending origin square and, within it, ascending
/// destination square.
#[verifier::loop_isolation(false)]
#[verifier::rlimit(100)]
pub fn current_side_moves(board: &Board) -> (r: Vec<Move>)
    requires
        board.wf(),
    ensures
        forall|k: int|
            0 <= k < r@.len() ==> {
                let m = #[trigger] r@[k];
                &&& m.from.0 < 8
                &&& m.from.1 < 8
                &&& m.to.0 < 8
                &&& m.to.1 < 8
                &&& spec_reachable(
                    *board,
                    m.from.0 as int,
                    m.from.1 as int,
                    square(m.to.0 as int, m.to.1 as int),
                )
                &&& m == spec_parse_move(*board, m.from, m.to)
            },
        forall|k1: int, k2: int| 0 <= k1 < k2 < r@.len() ==> move_key(r@[k1]) < move_key(r@[k2]),
        forall|fr: u8, ff: u8, tr: u8, tf: u8|
            fr < 8 && ff < 8 && tr < 8 && tf < 8 && #[trigger] spec_reachable(
                *board,
                fr as int,
                ff as int,
                square(tr as int, tf as int),
            ) ==> exists|k: int|
                0 <= k < r@.len() && (#[trigger] r@[k]).from == (fr, ff) && r@[k].to == (tr, tf),
{
    let mut current_moves: Vec<Move> = Vec::new();
    let side_index = board.side_to_move.index();
    let mut sq: u8 = 0;
    while sq < 64
        invariant
            sq <= 64,
            forall|k: int|
                0 <= k < current_moves@.len() ==> {
                    let m = #[trigger] current_moves@[k];
                    &&& m.from.0 < 8
                    &&& m.from.1 < 8
                    &&& m.to.0 < 8
                    &&& m.to.1 < 8
                    &&& spec_reachable(
                        *board,
                        m.from.0 as int,
                        m.from.1 as int,
                        square(m.to.0 as int, m.to.1 as int),
                    )
                    &&& m == spec_parse_move(*board, m.from, m.to)
                },
            forall|k1: int, k2: int|
                0 <= k1 < k2 < current_moves@.len() ==> move_key(current_moves@[k1]) < move_key(
                    current_moves@[k2],
                ),
            forall|k: int|
                0 <= k < current_moves@.len() ==> move_key(#[trigger] current_moves@[k])
                    < sq as int * 64,
            forall|fr: u8, ff: u8, tr: u8, tf: u8|
                fr < 8 && ff < 8 && tr < 8 && tf < 8 && #[trigger] spec_reachable(
                    *board,
                    fr as int,
                    ff as int,
                    square(tr as int, tf as int),
                ) && (fr as int * 8 + ff) * 64 + tr as int * 8 + tf < sq as int * 64 ==> exists|
                    k: int,
                |
                    0 <= k < current_moves@.len() && (#[trigger] current_moves@[k]).from == (fr, ff)
                        && current_moves@[k].to == (tr, tf),
        decreases 64 - sq,
    {
        let from = (sq / 8, sq % 8);
        proof {
            assert(from.0 as int * 8 + from.1 as int == sq as int);
            assert(square(from.0 as int, from.1 as int) == sq as u64);
        }
        if board.occupied[side_index].is_bit_set(sq) {
            let valid = valid_moves(board, &from);
            proof {
                // the origin square holds a piece of the side to move
                assert(board.occ_side(board.side_to_move, sq as u64));
                let w = choose|p: Piece|
                    p.spec_color() == board.side_to_move && board.spec_has(p, sq as u64);
                board.lemma_get_some(w, sq as u64);
            }
            let mut ts: u8 = 0;
            while ts < 64
                invariant
                    ts <= 64,
                    forall|k: int|
                        0 <= k < current_moves@.len() ==> {
                            let m = #[trigger] current_moves@[k];
                            &&& m.from.0 < 8
                            &&& m.from.1 < 8
                            &&& m.to.0 < 8
                            &&& m.to.1 < 8
                            &&& spec_reachable(
                                *board,
                                m.from.0 as int,
                                m.from.1 as int,
                                square(m.to.0 as int, m.to.1 as int),
                            )
                            &&& m == spec_parse_move(*board, m.from, m.to)
                        },
                    forall|k1: int, k2: int|
                        0 <= k1 < k2 < current_moves@.len() ==> move_key(current_moves@[k1])
                            < move_key(current_moves@[k2]),
                    forall|k: int|
                        0 <= k < current_moves@.len() ==> move_key(#[trigger] current_moves@[k])
                            < sq as int * 64 + ts,
                    forall|fr: u8, ff: u8, tr: u8, tf: u8|
                        fr < 8 && ff < 8 && tr < 8 && tf < 8 && #[trigger] spec_reachable(
                            *board,
                            fr as int,
                            ff as int,
                            square(tr as int, tf as int),
                        ) && (fr as int * 8 + ff) * 64 + tr as int * 8 + tf < sq as int * 64
                            + ts ==> exists|k: int|
                            0 <= k < current_moves@.len() && (#[trigger] current_moves@[k]).from
                                == (fr, ff) && current_moves@[k].to == (tr, tf),
                decreases 64 - ts,
            {
                if valid.is_bit_set(ts) {
                    let to = (ts / 8, ts % 8);
                    proof {
                        assert(to.0 as int * 8 + to.1 as int == ts as int);
                        assert(square(to.0 as int, to.1 as int) == ts as u64);
                    }
                    let m_opt = parse_move(board, from, to);
                    proof {
                        assert(m_opt is Some);
                    }
                    let m = m_opt.unwrap();
                    let ghost before = current_moves@;
                    current_moves.push(m);
                    proof {
                        assert(m.from == from && m.to == to);
                        assert(move_key(m) == sq as int * 64 + ts);
                        assert forall|fr: u8, ff: u8, tr: u8, tf: u8|
                            fr < 8 && ff < 8 && tr < 8 && tf < 8 && #[trigger] spec_reachable(
                                *board,
                                fr as int,
                                ff as int,
                                square(tr as int, tf as int),
                            ) && (fr as int * 8 + ff) * 64 + tr as int * 8 + tf < sq as int * 64 + ts
                            + 1 implies exists|k: int|
                            0 <= k < current_moves@.len() && (#[trigger] current_moves@[k]).from
                                == (fr, ff) && current_moves@[k].to == (tr, tf) by {
                            if (fr as int * 8 + ff) * 64 + tr as int * 8 + tf == sq as int * 64
                                + ts {
                                assert(fr as int * 8 + ff == sq as int && tr as int * 8 + tf
                                    == ts as int);
                                assert(fr == from.0 && ff == from.1 && tr == to.0 && tf == to.1);
                                assert(current_moves@[current_moves@.len() - 1].from == (fr, ff));
                            } else {
                                let k = choose|k: int|
                                    0 <= k < before.len() && (#[trigger] before[k]).from == (fr, ff)
                                        && before[k].to == (tr, tf);
                                assert(current_moves@[k].from == (fr, ff));
                            }
                        }
                    }
                } else {
                    proof {
                        assert forall|fr: u8, ff: u8, tr: u8, tf: u8|
                            fr < 8 && ff < 8 && tr < 8 && tf < 8 && #[trigger] spec_reachable(
                                *board,
                                fr as int,
                                ff as int,
                                square(tr as int, tf as int),
                            ) && (fr as int * 8 + ff) * 64 + tr as int * 8 + tf < sq as int * 64 + ts
                            + 1 implies exists|k: int|
                            0 <= k < current_moves@.len() && (#[trigger] current_moves@[k]).from
                                == (fr, ff) && current_moves@[k].to == (tr, tf) by {
                            if (fr as int * 8 + ff) * 64 + tr as int * 8 + tf == sq as int * 64
                                + ts {
                                assert(fr as int * 8 + ff == sq as int && tr as int * 8 + tf
                                    == ts as int);
                                assert(fr == from.0 && ff == from.1);
                                assert(square(tr as int, tf as int) == ts as u64);
                                assert(!spec_reachable(
                                    *board,
                                    fr as int,
                                    ff as int,
                                    square(tr as int, tf as int),
                                ));
                            }
                        }
                    }
                }
                ts += 1;
            }
        } else {
            proof {
                assert forall|tr: u8, tf: u8| tr < 8 && tf < 8 implies !spec_reachable(
                    *board,
                    from.0 as int,
                    from.1 as int,
                    square(tr as int, tf as int),
                ) by {
                    if spec_reachable(
                        *board,
                        from.0 as int,
                        from.1 as int,
                        square(tr as int, tf as int),
                    ) {
                        let p = board.spec_get(sq as u64).unwrap();
                        board.lemma_get_has(p, sq as u64);
                        assert(board.occ_side(board.side_to_move, sq as u64));
                    }
                }
                assert forall|fr: u8, ff: u8, tr: u8, tf: u8|
                    fr < 8 && ff < 8 && tr < 8 && tf < 8 && #[trigger] spec_reachable(
                        *board,
                        fr as int,
                        ff as int,
                        square(tr as int, tf as int),
                    ) && (fr as int * 8 + ff) * 64 + tr as int * 8 + tf < (sq as int + 1)
                        * 64 implies exists|k: int|
                    0 <= k < current_moves@.len() && (#[trigger] current_moves@[k]).from == (fr, ff)
                        && current_moves@[k].to == (tr, tf) by {
                    if (fr as int * 8 + ff) * 64 + tr as int * 8 + tf >= sq as int * 64 {
                        assert(fr as int * 8 + ff == sq as int);
                        assert(fr == from.0 && ff == from.1);
                    }
                }
            }
        }
        sq += 1;
    }
    current_moves
}

/// Builds the move value for a coordinate pair: `None` when the origin
/// square is empty.  A two-file king displacement from a home square is
/// read as castling; any other piece moving between those squares makes an
/// ordinary move or capture.
pub fn parse_move(board: &Board, from: (u8, u8), to: (u8, u8)) -> (r: Option<Move>)
    requires
        board.wf(),
        from.0 < 8,
        from.1 < 8,
        to.0 < 8,
        to.1 < 8,
    ensures
        match r {
            Some(m) => board.spec_get(square(from.0 as int, from.1 as int)) is Some && m
                == spec_parse_move(*board, from, to),
            None => board.spec_get(square(from.0 as int, from.1 as int)) is None,
        },
{
    if let Some(piece) = board.get(from.0, from.1) {
        let pattern = (from.0 == 7 && from.1 == 4 && to.0 == 7 && (to.1 == 6 || to.1 == 2)) || (
        from.0 == 0 && from.1 == 4 && to.0 == 0 && (to.1 == 6 || to.1 == 2));
        let move_type = if pattern && (piece == Piece::WhiteKing || piece == Piece::BlackKing) {
            MoveType::Castling
        } else if let Some(capture) = board.get(to.0, to.1) {
            MoveType::Capture(capture)
        } else {
            MoveType::Normal
        };
        Some(Move { from, to, piece, move_type })
    } else {
        None
    }
}

} // verus!
