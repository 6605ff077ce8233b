//! Pseudo-legal move generation: for the piece on a given origin square,
//! the set of squares it may move to under blocking, capture and castling
//! rules, with no notion of check.

use vstd::prelude::*;

use crate::bitset::Bitset;
use crate::board::Board;
use crate::piece::{Color, Piece};

verus! {

#[derive(Clone, Copy, Debug, PartialEq, Eq, Structural)]
pub enum MoveType {
    Normal,
    Capture(Piece),
    Castling,
}

/// An ephemeral move: origin and destination as (rank, file) pairs, the
/// moving piece, and the move kind.
#[derive(Clone, Copy, Debug, PartialEq, Eq)]
pub struct Move {
    pub from: (u8, u8),
    pub to: (u8, u8),
    pub piece: Piece,
    pub move_type: MoveType,
}

/// The error reported when a proposed move's destination is not among the
/// generated targets of its origin square.
#[derive(Clone, Copy, Debug, PartialEq, Eq, Structural)]
pub struct InvalidMove;

/// The coordinate pair lies on the 8 by 8 board.
pub open spec fn on_board(r: int, f: int) -> bool {
    0 <= r < 8 && 0 <= f < 8
}

/// Square index of a board coordinate: rank times eight plus file.
pub open spec fn square(r: int, f: int) -> u64
    recommends
        on_board(r, f),
{
    (r * 8 + f) as u64
}

/// A piece of the side to move occupies `sq`.
pub open spec fn own_occ(b: Board, sq: u64) -> bool {
    b.occ_side(b.side_to_move, sq)
}

/// A piece of the side not to move occupies `sq`.
pub open spec fn opp_occ(b: Board, sq: u64) -> bool {
    b.occ_side(b.side_to_move.spec_opposite(), sq)
}

/// On a well-formed board the aggregate occupancy set is the union of the
/// two color occupancy sets.
pub proof fn lemma_occ_all_split(b: Board, sq: u64)
    requires
        b.wf(),
        sq < 64,
    ensures
        b.occ_all(sq) <==> (b.occ_side(Color::White, sq) || b.occ_side(Color::Black, sq)),
{
    if b.occ_all(sq) {
        let p = choose|p: Piece| b.spec_has(p, sq);
        assert(p.spec_color() == Color::White || p.spec_color() == Color::Black);
        assert(b.occ_side(p.spec_color(), sq));
    }
    if b.occ_side(Color::White, sq) {
        let p = choose|p: Piece| p.spec_color() == Color::White && b.spec_has(p, sq);
        assert(b.spec_has(p, sq));
    }
    if b.occ_side(Color::Black, sq) {
        let p = choose|p: Piece| p.spec_color() == Color::Black && b.spec_has(p, sq);
        assert(b.spec_has(p, sq));
    }
}

/// A square occupied by neither side is not occupied at all, and a square
/// occupied by one side is occupied.
pub proof fn lemma_occ_sides(b: Board, sq: u64)
    requires
        b.wf(),
        sq < 64,
    ensures
        b.occ_all(sq) <==> (own_occ(b, sq) || opp_occ(b, sq)),
{
    lemma_occ_all_split(b, sq);
}

/// A single-step target: the offset square is on the board and not held by
/// the moving side.  Shared by the knight and king offset rules.
pub open spec fn leap_reaches(b: Board, r: int, f: int, dr: int, df: int, t: u64) -> bool {
    on_board(r + dr, f + df) && t == square(r + dr, f + df) && !own_occ(b, t)
}

pub open spec fn knight_reaches(b: Board, r: int, f: int, t: u64) -> bool {
    ||| leap_reaches(b, r, f, 1, 2, t)
    ||| leap_reaches(b, r, f, 1, -2, t)
    ||| leap_reaches(b, r, f, 2, 1, t)
    ||| leap_reaches(b, r, f, 2, -1, t)
    ||| leap_reaches(b, r, f, -1, 2, t)
    ||| leap_reaches(b, r, f, -1, -2, t)
    ||| leap_reaches(b, r, f, -2, -1, t)
    ||| leap_reaches(b, r, f, -2, 1, t)
}

pub open spec fn king_step_reaches(b: Board, r: int, f: int, t: u64) -> bool {
    ||| leap_reaches(b, r, f, -1, -1, t)
    ||| leap_reaches(b, r, f, -1, 0, t)
    ||| leap_reaches(b, r, f, -1, 1, t)
    ||| leap_reaches(b, r, f, 0, -1, t)
    ||| leap_reaches(b, r, f, 0, 1, t)
    ||| leap_reaches(b, r, f, 1, -1, t)
    ||| leap_reaches(b, r, f, 1, 0, t)
    ||| leap_reaches(b, r, f, 1, 1, t)
}

/// The square `k` steps out from `(r, f)` along direction `(dr, df)`.
pub open spec fn ray_square(r: int, f: int, dr: int, df: int, k: int) -> u64 {
    square(r + k * dr, f + k * df)
}

/// The square `k` steps out lies on the board.
pub open spec fn ray_on_board(r: int, f: int, dr: int, df: int, k: int) -> bool {
    on_board(r + k * dr, f + k * df)
}

/// No piece stands strictly between the origin and step `k` of the ray.
pub open spec fn path_clear(b: Board, r: int, f: int, dr: int, df: int, k: int) -> bool {
    forall|j: int| 1 <= j < k ==> !b.occ_all(#[trigger] ray_square(r, f, dr, df, j))
}

/// A sliding piece at `(r, f)` reaches `t` along `(dr, df)`: `t` is some
/// step of the ray, on the board, not held by the moving side, and every
/// square strictly before it on the ray is empty.
pub open spec fn ray_reaches(b: Board, r: int, f: int, dr: int, df: int, t: u64) -> bool {
    exists|k: int|
        1 <= k && ray_on_board(r, f, dr, df, k) && t == #[trigger] ray_square(r, f, dr, df, k)
            && !own_occ(b, t) && path_clear(b, r, f, dr, df, k)
}

/// `ray_reaches` restricted to at most `bound` steps out.
pub open spec fn ray_reaches_within(
    b: Board,
    r: int,
    f: int,
    dr: int,
    df: int,
    t: u64,
    bound: int,
) -> bool {
    exists|k: int|
        1 <= k <= bound && ray_on_board(r, f, dr, df, k) && t == #[trigger] ray_square(
            r,
            f,
            dr,
            df,
            k,
        ) && !own_occ(b, t) && path_clear(b, r, f, dr, df, k)
}

pub open spec fn bishop_reaches(b: Board, r: int, f: int, t: u64) -> bool {
    ||| ray_reaches(b, r, f, 1, 1, t)
    ||| ray_reaches(b, r, f, 1, -1, t)
    ||| ray_reaches(b, r, f, -1, 1, t)
    ||| ray_reaches(b, r, f, -1, -1, t)
}

pub open spec fn rook_reaches(b: Board, r: int, f: int, t: u64) -> bool {
    ||| ray_reaches(b, r, f, 1, 0, t)
    ||| ray_reaches(b, r, f, -1, 0, t)
    ||| ray_reaches(b, r, f, 0, 1, t)
    ||| ray_reaches(b, r, f, 0, -1, t)
}

pub open spec fn queen_reaches(b: Board, r: int, f: int, t: u64) -> bool {
    rook_reaches(b, r, f, t) || bishop_reaches(b, r, f, t)
}

/// Rank direction a pawn of color `c` advances in: white toward rank 0,
/// black toward rank 7.
pub open spec fn pawn_dir(c: Color) -> int {
    match c {
        Color::White => -1,
        Color::Black => 1,
    }
}

/// Rank from which a pawn of color `c` may push two squares.
pub open spec fn pawn_start_rank(c: Color) -> int {
    match c {
        Color::White => 6,
        Color::Black => 1,
    }
}

/// Pawn rule: diagonal steps only onto a square held by the other side, a
/// single push only onto an empty square, and a double push only from the
/// starting rank onto an empty square.  The double push consults its
/// destination alone, not the square passed over.
pub open spec fn pawn_reaches(b: Board, r: int, f: int, t: u64) -> bool {
    let d = pawn_dir(b.side_to_move);
    ||| (on_board(r + d, f - 1) && t == square(r + d, f - 1) && opp_occ(b, t))
    ||| (on_board(r + d, f + 1) && t == square(r + d, f + 1) && opp_occ(b, t))
    ||| (on_board(r + d, f) && t == square(r + d, f) && !b.occ_all(t))
    ||| (r == pawn_start_rank(b.side_to_move) && on_board(r + 2 * d, f) && t == square(r + 2 * d, f)
        && !b.occ_all(t))
}

/// Home rank of the king and rooks of color `c`.
pub open spec fn home_rank(c: Color) -> int {
    match c {
        Color::White => 7,
        Color::Black => 0,
    }
}

/// Index of the kingside castling-rights flag of color `c`.
pub open spec fn kingside_flag(c: Color) -> int {
    2 * c.spec_index() - 2
}

/// Index of the queenside castling-rights flag of color `c`.
pub open spec fn queenside_flag(c: Color) -> int {
    2 * c.spec_index() - 1
}

/// The rook identity of color `c`.
pub open spec fn side_rook(c: Color) -> Piece {
    match c {
        Color::White => Piece::WhiteRook,
        Color::Black => Piece::BlackRook,
    }
}

/// Castling rule, evaluated for the side to move from its king's home
/// square only: the matching rights flag is still set, that side's rook
/// stands on its home corner, and the squares between king and rook are
/// empty.  Kingside lands two files toward file 7, queenside two files
/// toward file 0.
pub open spec fn castle_reaches(b: Board, r: int, f: int, t: u64) -> bool {
    let c = b.side_to_move;
    let home = home_rank(c);
    r == home && f == 4 && {
        ||| (t == square(home, 6) && b.can_castle[kingside_flag(c)] && b.spec_has(
            side_rook(c),
            square(home, 7),
        ) && !b.occ_all(square(home, 5)) && !b.occ_all(square(home, 6)))
        ||| (t == square(home, 2) && b.can_castle[queenside_flag(c)] && b.spec_has(
            side_rook(c),
            square(home, 0),
        ) && !b.occ_all(square(home, 1)) && !b.occ_all(square(home, 2)) && !b.occ_all(
            square(home, 3),
        ))
    }
}

/// The four king displacements that read as castling: two files sideways
/// from the home square of either color.
pub open spec fn castle_pattern(from: (u8, u8), to: (u8, u8)) -> bool {
    ||| (from == (7u8, 4u8) && to == (7u8, 6u8))
    ||| (from == (7u8, 4u8) && to == (7u8, 2u8))
    ||| (from == (0u8, 4u8) && to == (0u8, 6u8))
    ||| (from == (0u8, 4u8) && to == (0u8, 2u8))
}

pub open spec fn is_king(p: Piece) -> bool {
    p == Piece::WhiteKing || p == Piece::BlackKing
}

/// A move value consistent with the board it is to be applied to: the
/// coordinates are on the board, the named piece really stands on the
/// origin, and the kind reflects the destination square — castling for a
/// king displaced along a castle pattern, a capture naming the piece that
/// stands on the destination, an ordinary move for an empty destination.
pub open spec fn move_wf(b: Board, m: Move) -> bool {
    let from_sq = square(m.from.0 as int, m.from.1 as int);
    let to_sq = square(m.to.0 as int, m.to.1 as int);
    &&& m.from.0 < 8
    &&& m.from.1 < 8
    &&& m.to.0 < 8
    &&& m.to.1 < 8
    &&& b.spec_get(from_sq) == Some(m.piece)
    &&& match m.move_type {
        MoveType::Castling => castle_pattern(m.from, m.to) && is_king(m.piece),
        MoveType::Capture(captured) => !(castle_pattern(m.from, m.to) && is_king(m.piece))
            && b.spec_get(to_sq) == Some(captured),
        MoveType::Normal => !(castle_pattern(m.from, m.to) && is_king(m.piece)) && b.spec_get(
            to_sq,
        ) is None,
    }
}

/// Dispatch of the movement rule by piece type.
pub open spec fn spec_piece_reaches(b: Board, p: Piece, r: int, f: int, t: u64) -> bool {
    match p {
        Piece::WhitePawn | Piece::BlackPawn => pawn_reaches(b, r, f, t),
        Piece::WhiteKnight | Piece::BlackKnight => knight_reaches(b, r, f, t),
        Piece::WhiteBishop | Piece::BlackBishop => bishop_reaches(b, r, f, t),
        Piece::WhiteRook | Piece::BlackRook => rook_reaches(b, r, f, t),
        Piece::WhiteQueen | Piece::BlackQueen => queen_reaches(b, r, f, t),
        Piece::WhiteKing | Piece::BlackKing => king_step_reaches(b, r, f, t) || castle_reaches(
            b,
            r,
            f,
            t,
        ),
    }
}

/// The full generator rule: the origin must hold a piece of the side to
/// move, and the piece's own movement rule decides the rest.  An empty or
/// out-of-turn origin reaches nothing.
pub open spec fn spec_reachable(b: Board, r: int, f: int, t: u64) -> bool {
    match b.spec_get(square(r, f)) {
        Some(p) => p.spec_color() == b.side_to_move && spec_piece_reaches(b, p, r, f, t),
        None => false,
    }
}

/// Adds `target_square` to `moves` unless the moving side holds it, and
/// reports whether a ray may continue past it (false on any occupancy).
pub fn valid_target(board: &Board, moves: &mut Bitset, target_square: u8) -> (r: bool)
    requires
        target_square < 64,
    ensures
        own_occ(*board, target_square as u64) ==> *final(moves) == *old(moves) && !r,
        !own_occ(*board, target_square as u64) ==> (forall|j: u64|
            j < 64 ==> #[trigger] final(moves).spec_bit(j) == (old(moves).spec_bit(j) || j
                == target_square as u64)) && r == !opp_occ(*board, target_square as u64),
{
    let same_occupied = &board.occupied[board.side_to_move.index()];
    if same_occupied.is_bit_set(target_square) {
        return false;
    }
    moves.set_bit(target_square);

    let opposite_occupied = &board.occupied[board.side_to_move.opposite().index()];
    if opposite_occupied.is_bit_set(target_square) {
        return false;
    }
    true
}

/// One offset step for a knight or king: adds the target if it is on the
/// board and not held by the moving side.
fn try_leap(board: &Board, moves: &mut Bitset, rank: u8, file: u8, dr: i8, df: i8)
    requires
        rank < 8,
        file < 8,
        -2 <= dr <= 2,
        -2 <= df <= 2,
    ensures
        forall|j: u64|
            j < 64 ==> #[trigger] final(moves).spec_bit(j) == (old(moves).spec_bit(j)
                || leap_reaches(*board, rank as int, file as int, dr as int, df as int, j)),
{
    let r = rank as i8 + dr;
    let f = file as i8 + df;
    if 0 <= r && r < 8 && 0 <= f && f < 8 {
        let target = (r * 8 + f) as u8;
        valid_target(board, moves, target);
    }
}

pub fn knight_moves(board: &Board, from: &(u8, u8)) -> (r: Bitset)
    requires
        from.0 < 8,
        from.1 < 8,
    ensures
        forall|t: u64|
            t < 64 ==> #[trigger] r.spec_bit(t) == knight_reaches(
                *board,
                from.0 as int,
                from.1 as int,
                t,
            ),
{
    let mut moves = Bitset::new(0);
    proof {
        assert forall|j: u64| !#[trigger] crate::bitset::word_bit(0u64, j) by {
            crate::bitset::lemma_word_zero(j);
        }
    }
    let (rank, file) = *from;
    try_leap(board, &mut moves, rank, file, 1, 2);
    try_leap(board, &mut moves, rank, file, 1, -2);
    try_leap(board, &mut moves, rank, file, 2, 1);
    try_leap(board, &mut moves, rank, file, 2, -1);
    try_leap(board, &mut moves, rank, file, -1, 2);
    try_leap(board, &mut moves, rank, file, -1, -2);
    try_leap(board, &mut moves, rank, file, -2, -1);
    try_leap(board, &mut moves, rank, file, -2, 1);
    moves
}

pub fn king_moves(board: &Board, from: &(u8, u8)) -> (r: Bitset)
    requires
        from.0 < 8,
        from.1 < 8,
    ensures
        forall|t: u64|
            t < 64 ==> #[trigger] r.spec_bit(t) == king_step_reaches(
                *board,
                from.0 as int,
                from.1 as int,
                t,
            ),
{
    let mut moves = Bitset::new(0);
    proof {
        assert forall|j: u64| !#[trigger] crate::bitset::word_bit(0u64, j) by {
            crate::bitset::lemma_word_zero(j);
        }
    }
    let (rank, file) = *from;
    try_leap(board, &mut moves, rank, file, -1, -1);
    try_leap(board, &mut moves, rank, file, -1, 0);
    try_leap(board, &mut moves, rank, file, -1, 1);
    try_leap(board, &mut moves, rank, file, 0, -1);
    try_leap(board, &mut moves, rank, file, 0, 1);
    try_leap(board, &mut moves, rank, file, 1, -1);
    try_leap(board, &mut moves, rank, file, 1, 0);
    try_leap(board, &mut moves, rank, file, 1, 1);
    moves
}

/// Unfolding of the bounded ray rule at its last step.
proof fn lemma_within_unfold(b: Board, r: int, f: int, dr: int, df: int, t: u64, k: int)
    requires
        k >= 1,
    ensures
        ray_reaches_within(b, r, f, dr, df, t, k) <==> (ray_reaches_within(b, r, f, dr, df, t, k - 1)
            || (ray_on_board(r, f, dr, df, k) && t == ray_square(r, f, dr, df, k) && !own_occ(b, t)
            && path_clear(b, r, f, dr, df, k))),
{
    if ray_reaches_within(b, r, f, dr, df, t, k) {
        let m = choose|m: int|
            1 <= m <= k && ray_on_board(r, f, dr, df, m) && t == #[trigger] ray_square(
                r,
                f,
                dr,
                df,
                m,
            ) && !own_occ(b, t) && path_clear(b, r, f, dr, df, m);
        if m <= k - 1 {
            assert(ray_reaches_within(b, r, f, dr, df, t, k - 1));
        }
    }
    if ray_reaches_within(b, r, f, dr, df, t, k - 1) {
        let m = choose|m: int|
            1 <= m <= k - 1 && ray_on_board(r, f, dr, df, m) && t == #[trigger] ray_square(
                r,
                f,
                dr,
                df,
                m,
            ) && !own_occ(b, t) && path_clear(b, r, f, dr, df, m);
        assert(ray_reaches_within(b, r, f, dr, df, t, k));
    }
}

/// A ray that meets an occupied square at step `k + 1` reaches nothing
/// beyond that step.
proof fn lemma_ray_stops_occupied(b: Board, r: int, f: int, dr: int, df: int, k: int)
    requires
        k >= 0,
        ray_on_board(r, f, dr, df, k + 1),
        b.occ_all(ray_square(r, f, dr, df, k + 1)),
    ensures
        forall|t: u64|
            ray_reaches(b, r, f, dr, df, t) <==> ray_reaches_within(b, r, f, dr, df, t, k + 1),
{
    assert forall|t: u64|
        ray_reaches(b, r, f, dr, df, t) implies ray_reaches_within(b, r, f, dr, df, t, k + 1) by {
        let m = choose|m: int|
            1 <= m && ray_on_board(r, f, dr, df, m) && t == #[trigger] ray_square(r, f, dr, df, m)
                && !own_occ(b, t) && path_clear(b, r, f, dr, df, m);
        if m > k + 1 {
            assert(!b.occ_all(ray_square(r, f, dr, df, k + 1)));
        }
    }
    assert forall|t: u64|
        ray_reaches_within(b, r, f, dr, df, t, k + 1) implies ray_reaches(b, r, f, dr, df, t) by {
        let m = choose|m: int|
            1 <= m <= k + 1 && ray_on_board(r, f, dr, df, m) && t == #[trigger] ray_square(
                r,
                f,
                dr,
                df,
                m,
            ) && !own_occ(b, t) && path_clear(b, r, f, dr, df, m);
        assert(ray_reaches(b, r, f, dr, df, t));
    }
}

/// A ray whose step `k + 1` leaves the board reaches nothing beyond step
/// `k`: once off the board along a straight line, every later step is off
/// as well.
proof fn lemma_ray_stops_edge(b: Board, r: int, f: int, dr: int, df: int, k: int)
    requires
        k >= 0,
        -1 <= dr <= 1,
        -1 <= df <= 1,
        !(dr == 0 && df == 0),
        on_board(r, f),
        !ray_on_board(r, f, dr, df, k + 1),
    ensures
        forall|t: u64| ray_reaches(b, r, f, dr, df, t) <==> ray_reaches_within(b, r, f, dr, df, t, k),
{
    assert forall|m: int| m >= k + 1 implies !ray_on_board(r, f, dr, df, m) by {
        lemma_ray_monotone(r, f, dr, df, k + 1, m);
    }
    assert forall|t: u64|
        ray_reaches(b, r, f, dr, df, t) implies ray_reaches_within(b, r, f, dr, df, t, k) by {
        let m = choose|m: int|
            1 <= m && ray_on_board(r, f, dr, df, m) && t == #[trigger] ray_square(r, f, dr, df, m)
                && !own_occ(b, t) && path_clear(b, r, f, dr, df, m);
        assert(m <= k);
        assert(ray_reaches_within(b, r, f, dr, df, t, k));
    }
    assert forall|t: u64|
        ray_reaches_within(b, r, f, dr, df, t, k) implies ray_reaches(b, r, f, dr, df, t) by {
        let m = choose|m: int|
            1 <= m <= k && ray_on_board(r, f, dr, df, m) && t == #[trigger] ray_square(
                r,
                f,
                dr,
                df,
                m,
            ) && !own_occ(b, t) && path_clear(b, r, f, dr, df, m);
        assert(ray_reaches(b, r, f, dr, df, t));
    }
}

/// Along a straight unit-step line, leaving the board is permanent.
proof fn lemma_ray_monotone(r: int, f: int, dr: int, df: int, k: int, m: int)
    requires
        -1 <= dr <= 1,
        -1 <= df <= 1,
        !(dr == 0 && df == 0),
        on_board(r, f),
        k >= 1,
        m >= k,
        !ray_on_board(r, f, dr, df, k),
    ensures
        !ray_on_board(r, f, dr, df, m),
{
    assert((dr == 1 ==> k * dr >= 1 && m * dr >= k * dr) && (dr == -1 ==> k * dr <= -1 && m * dr
        <= k * dr) && (dr == 0 ==> k * dr == 0 && m * dr == 0)) by (nonlinear_arith)
        requires
            m >= k,
            k >= 1,
    ;
    assert((df == 1 ==> k * df >= 1 && m * df >= k * df) && (df == -1 ==> k * df <= -1 && m * df
        <= k * df) && (df == 0 ==> k * df == 0 && m * df == 0)) by (nonlinear_arith)
        requires
            m >= k,
            k >= 1,
    ;
}

/// Walks one ray from `(rank, file)` along `(dr, df)`, adding each empty
/// square passed, the first opposing square met, and nothing further.
fn ray_moves(board: &Board, moves: &mut Bitset, rank: u8, file: u8, dr: i8, df: i8)
    requires
        board.wf(),
        rank < 8,
        file < 8,
        -1 <= dr <= 1,
        -1 <= df <= 1,
        !(dr == 0 && df == 0),
    ensures
        forall|j: u64|
            j < 64 ==> #[trigger] final(moves).spec_bit(j) == (old(moves).spec_bit(j)
                || ray_reaches(*board, rank as int, file as int, dr as int, df as int, j)),
{
    let ghost r0 = rank as int;
    let ghost f0 = file as int;
    let ghost d_r = dr as int;
    let ghost d_f = df as int;
    let ghost moves0 = *moves;

    let mut r = rank as i8;
    let mut f = file as i8;
    let ghost mut k: int = 0;

    loop
        invariant_except_break
            board.wf(),
            rank < 8,
            file < 8,
            -1 <= dr <= 1,
            -1 <= df <= 1,
            !(dr == 0 && df == 0),
            r0 == rank as int,
            f0 == file as int,
            d_r == dr as int,
            d_f == df as int,
            k >= 0,
            r == r0 + k * d_r,
            f == f0 + k * d_f,
            0 <= r < 8,
            0 <= f < 8,
            path_clear(*board, r0, f0, d_r, d_f, k + 1),
            forall|j: u64|
                j < 64 ==> #[trigger] moves.spec_bit(j) == (moves0.spec_bit(j)
                    || ray_reaches_within(*board, r0, f0, d_r, d_f, j, k)),
        ensures
            forall|j: u64|
                j < 64 ==> #[trigger] moves.spec_bit(j) == (moves0.spec_bit(j) || ray_reaches(
                    *board,
                    r0,
                    f0,
                    d_r,
                    d_f,
                    j,
                )),
        decreases (if dr == 1 {
            7 - r as int
        } else {
            r as int + 8
        }) + (if df == 1 {
            7 - f as int
        } else {
            f as int + 8
        }),
    {
        if !(0 <= r + dr && r + dr < 8 && 0 <= f + df && f + df < 8) {
            proof {
                // The next step would leave the board, and a straight ray
                // never comes back.
                assert((k + 1) * d_r == k * d_r + d_r) by (nonlinear_arith);
                assert((k + 1) * d_f == k * d_f + d_f) by (nonlinear_arith);
                lemma_ray_stops_edge(*board, r0, f0, d_r, d_f, k);
            }
            break;
        }
        r = r + dr;
        f = f + df;
        proof {
            assert((k + 1) * d_r == k * d_r + d_r) by (nonlinear_arith);
            assert((k + 1) * d_f == k * d_f + d_f) by (nonlinear_arith);
            k = k + 1;
        }
        let target = (r * 8 + f) as u8;
        proof {
            assert(target as u64 == ray_square(r0, f0, d_r, d_f, k));
        }
        let ghost before = *moves;
        if !valid_target(board, moves, target) {
            proof {
                let t = target as u64;
                lemma_occ_sides(*board, t);
                if own_occ(*board, t) {
                    // An own piece blocks step k; nothing was added and the
                    // ray reaches no further than step k - 1.
                    lemma_ray_stops_occupied(*board, r0, f0, d_r, d_f, k - 1);
                    assert forall|j: u64| j < 64 implies #[trigger] moves.spec_bit(j) == (
                    moves0.spec_bit(j) || ray_reaches(*board, r0, f0, d_r, d_f, j)) by {
                        lemma_within_unfold(*board, r0, f0, d_r, d_f, j, k);
                    }
                } else {
                    // An opposing piece stands on step k; it was added and
                    // terminates the ray.
                    lemma_ray_stops_occupied(*board, r0, f0, d_r, d_f, k - 1);
                    assert forall|j: u64| j < 64 implies #[trigger] moves.spec_bit(j) == (
                    moves0.spec_bit(j) || ray_reaches(*board, r0, f0, d_r, d_f, j)) by {
                        lemma_within_unfold(*board, r0, f0, d_r, d_f, j, k);
                        assert(moves.spec_bit(j) == (before.spec_bit(j) || j == target as u64));
                    }
                }
            }
            break;
        }
        proof {
            // The square at step k is empty: the ray walks on.
            let t = target as u64;
            lemma_occ_sides(*board, t);
            assert(!board.occ_all(t));
            assert forall|j: u64| j < 64 implies #[trigger] moves.spec_bit(j) == (moves0.spec_bit(j)
                || ray_reaches_within(*board, r0, f0, d_r, d_f, j, k)) by {
                lemma_within_unfold(*board, r0, f0, d_r, d_f, j, k);
                assert(moves.spec_bit(j) == (before.spec_bit(j) || j == target as u64));
            }
        }
    }
}

pub fn bishop_moves(board: &Board, from: &(u8, u8)) -> (r: Bitset)
    requires
        board.wf(),
        from.0 < 8,
        from.1 < 8,
    ensures
        forall|t: u64|
            t < 64 ==> #[trigger] r.spec_bit(t) == bishop_reaches(
                *board,
                from.0 as int,
                from.1 as int,
                t,
            ),
{
    let mut moves = Bitset::new(0);
    proof {
        assert forall|j: u64| !#[trigger] crate::bitset::word_bit(0u64, j) by {
            crate::bitset::lemma_word_zero(j);
        }
    }
    let (rank, file) = *from;
    ray_moves(board, &mut moves, rank, file, 1, 1);
    ray_moves(board, &mut moves, rank, file, 1, -1);
    ray_moves(board, &mut moves, rank, file, -1, 1);
    ray_moves(board, &mut moves, rank, file, -1, -1);
    moves
}

pub fn rook_moves(board: &Board, from: &(u8, u8)) -> (r: Bitset)
    requires
        board.wf(),
        from.0 < 8,
        from.1 < 8,
    ensures
        forall|t: u64|
            t < 64 ==> #[trigger] r.spec_bit(t) == rook_reaches(
                *board,
                from.0 as int,
                from.1 as int,
                t,
            ),
{
    let mut moves = Bitset::new(0);
    proof {
        assert forall|j: u64| !#[trigger] crate::bitset::word_bit(0u64, j) by {
            crate::bitset::lemma_word_zero(j);
        }
    }
    let (rank, file) = *from;
    ray_moves(board, &mut moves, rank, file, 1, 0);
    ray_moves(board, &mut moves, rank, file, -1, 0);
    ray_moves(board, &mut moves, rank, file, 0, 1);
    ray_moves(board, &mut moves, rank, file, 0, -1);
    moves
}

pub fn queen_moves(board: &Board, from: &(u8, u8)) -> (r: Bitset)
    requires
        board.wf(),
        from.0 < 8,
        from.1 < 8,
    ensures
        forall|t: u64|
            t < 64 ==> #[trigger] r.spec_bit(t) == queen_reaches(
                *board,
                from.0 as int,
                from.1 as int,
                t,
            ),
{
    rook_moves(board, from).union(bishop_moves(board, from))
}

pub fn pawn_moves(board: &Board, from: &(u8, u8)) -> (r: Bitset)
    requires
        from.0 < 8,
        from.1 < 8,
    ensures
        forall|t: u64|
            t < 64 ==> #[trigger] r.spec_bit(t) == pawn_reaches(
                *board,
                from.0 as int,
                from.1 as int,
                t,
            ),
{
    let mut moves = Bitset::new(0);
    proof {
        assert forall|j: u64| !#[trigger] crate::bitset::word_bit(0u64, j) by {
            crate::bitset::lemma_word_zero(j);
        }
    }
    let (rank, file) = *from;
    let d: i8 = match board.side_to_move {
        Color::White => -1,
        Color::Black => 1,
    };
    let start_rank: u8 = match board.side_to_move {
        Color::White => 6,
        Color::Black => 1,
    };
    let opposite_index = board.side_to_move.opposite().index();

    // Diagonal captures.
    let r = rank as i8 + d;
    let f = file as i8 - 1;
    if 0 <= r && r < 8 && 0 <= f && f < 8 {
        let target = (r * 8 + f) as u8;
        if board.occupied[opposite_index].is_bit_set(target) {
            moves.set_bit(target);
        }
    }
    let f = file as i8 + 1;
    if 0 <= r && r < 8 && 0 <= f && f < 8 {
        let target = (r * 8 + f) as u8;
        if board.occupied[opposite_index].is_bit_set(target) {
            moves.set_bit(target);
        }
    }

    // Single push onto an empty square.
    if 0 <= r && r < 8 {
        let target = (r * 8 + file as i8) as u8;
        if !board.occupied[0].is_bit_set(target) {
            moves.set_bit(target);
        }
    }

    // Double push from the starting rank.  Only the destination square is
    // required to be empty; the square passed over is not consulted.
    if rank == start_rank {
        let r2 = rank as i8 + 2 * d;
        if 0 <= r2 && r2 < 8 {
            let target = (r2 * 8 + file as i8) as u8;
            if !board.occupied[0].is_bit_set(target) {
                moves.set_bit(target);
            }
        }
    }

    moves
}

/// True when the listed squares are all unoccupied; an empty list counts
/// as not empty.
pub fn is_empty(board: &Board, indices: &[(u8, u8)]) -> (r: bool)
    requires
        forall|i: int| 0 <= i < indices@.len() ==> (#[trigger] indices@[i]).0 < 8 && indices@[i].1 < 8,
    ensures
        r == (indices@.len() > 0 && forall|i: int|
            0 <= i < indices@.len() ==> !board.occ_all(
                square((#[trigger] indices@[i]).0 as int, indices@[i].1 as int),
            )),
{
    if indices.len() == 0 {
        return false;
    }
    let mut i: usize = 0;
    while i < indices.len()
        invariant
            i <= indices@.len(),
            forall|m: int| 0 <= m < indices@.len() ==> (#[trigger] indices@[m]).0 < 8 && indices@[m].1 < 8,
            forall|m: int|
                0 <= m < i ==> !board.occ_all(
                    square((#[trigger] indices@[m]).0 as int, indices@[m].1 as int),
                ),
        decreases indices@.len() - i,
    {
        let (r, f) = indices[i];
        if board.occupied[0].is_bit_set(r * 8 + f) {
            return false;
        }
        i += 1;
    }
    true
}

pub fn castling_moves(board: &Board, from: &(u8, u8)) -> (r: Bitset)
    requires
        board.wf(),
        from.0 < 8,
        from.1 < 8,
    ensures
        forall|t: u64|
            t < 64 ==> #[trigger] r.spec_bit(t) == castle_reaches(
                *board,
                from.0 as int,
                from.1 as int,
                t,
            ),
{
    let mut moves = Bitset::new(0);
    proof {
        assert forall|j: u64| !#[trigger] crate::bitset::word_bit(0u64, j) by {
            crate::bitset::lemma_word_zero(j);
        }
    }

    let king_pos: (u8, u8) = match board.side_to_move {
        Color::White => (7, 4),
        Color::Black => (0, 4),
    };

    if from.0 == king_pos.0 && from.1 == king_pos.1 {
        let side_index = board.side_to_move.index();
        let king_castle_index = 2 * side_index - 2;
        let queen_castle_index = 2 * side_index - 1;

        let king_rook = board.get(king_pos.0, 7);
        if let Some(king_rook) = king_rook {
            proof {
                board.lemma_get_has(king_rook, square(king_pos.0 as int, 7));
            }
            if (king_rook == Piece::WhiteRook || king_rook == Piece::BlackRook)
                && king_rook.color() == board.side_to_move && board.can_castle[king_castle_index]
                && is_empty(board, &[(king_pos.0, 5), (king_pos.0, 6)]) {
                let square = king_pos.0 * 8 + 6;
                moves.set_bit(square);
            }
        }

        let queen_rook = board.get(king_pos.0, 0);
        if let Some(queen_rook) = queen_rook {
            proof {
                board.lemma_get_has(queen_rook, square(king_pos.0 as int, 0));
            }
            if (queen_rook == Piece::WhiteRook || queen_rook == Piece::BlackRook)
                && queen_rook.color() == board.side_to_move && board.can_castle[queen_castle_index]
                && is_empty(board, &[(king_pos.0, 1), (king_pos.0, 2), (king_pos.0, 3)]) {
                let square = king_pos.0 * 8 + 2;
                moves.set_bit(square);
            }
        }
    }

    proof {
        let c = board.side_to_move;
        if board.spec_has(side_rook(c), square(home_rank(c), 7)) {
            board.lemma_get_some(side_rook(c), square(home_rank(c), 7));
        }
        if board.spec_has(side_rook(c), square(home_rank(c), 0)) {
            board.lemma_get_some(side_rook(c), square(home_rank(c), 0));
        }
    }
    moves
}

/// Pseudo-legal targets of the piece on the origin square: empty when the
/// origin holds no piece or a piece of the side not to move; otherwise the
/// piece's own movement rule.
pub fn valid_moves(board: &Board, from: &(u8, u8)) -> (r: Bitset)
    requires
        board.wf(),
        from.0 < 8,
        from.1 < 8,
    ensures
        forall|t: u64|
            t < 64 ==> #[trigger] r.spec_bit(t) == spec_reachable(
                *board,
                from.0 as int,
                from.1 as int,
                t,
            ),
{
    let piece = board.get(from.0, from.1);
    if let Some(piece) = piece {
        if piece.color() != board.side_to_move {
            let r = Bitset::new(0);
            proof {
                assert forall|j: u64| !#[trigger] crate::bitset::word_bit(0u64, j) by {
                    crate::bitset::lemma_word_zero(j);
                }
            }
            return r;
        }
        match piece {
            Piece::WhitePawn | Piece::BlackPawn => pawn_moves(board, from),
            Piece::WhiteKnight | Piece::BlackKnight => knight_moves(board, from),
            Piece::WhiteBishop | Piece::BlackBishop => bishop_moves(board, from),
            Piece::WhiteRook | Piece::BlackRook => rook_moves(board, from),
            Piece::WhiteQueen | Piece::BlackQueen => queen_moves(board, from),
            Piece::WhiteKing | Piece::BlackKing => king_moves(board, from).union(
                castling_moves(board, from),
            ),
        }
    } else {
        let r = Bitset::new(0);
        proof {
            assert forall|j: u64| !#[trigger] crate::bitset::word_bit(0u64, j) by {
                crate::bitset::lemma_word_zero(j);
            }
        }
        r
    }
}

/// The two colors never occupy the same square of a well-formed board.
pub proof fn lemma_occ_colors_disjoint(b: Board, sq: u64)
    requires
        b.wf(),
        sq < 64,
    ensures
        !(b.occ_side(Color::White, sq) && b.occ_side(Color::Black, sq)),
{
    if b.occ_side(Color::White, sq) && b.occ_side(Color::Black, sq) {
        let p = choose|p: Piece| p.spec_color() == Color::White && b.spec_has(p, sq);
        let q = choose|q: Piece| q.spec_color() == Color::Black && b.spec_has(q, sq);
        assert(b.spec_has(p, sq) && b.spec_has(q, sq));
    }
}

/// A ray target is never a square the moving side holds.
proof fn lemma_ray_not_own(b: Board, r: int, f: int, dr: int, df: int, t: u64)
    requires
        ray_reaches(b, r, f, dr, df, t),
    ensures
        !own_occ(b, t),
{
    let k = choose|k: int|
        1 <= k && ray_on_board(r, f, dr, df, k) && t == #[trigger] ray_square(r, f, dr, df, k)
            && !own_occ(b, t) && path_clear(b, r, f, dr, df, k);
}

/// No generated target square is held by the moving side, whatever the
/// piece: every movement rule either demands the square free of own pieces
/// outright or demands it empty or opposing.
pub proof fn lemma_reach_not_own(b: Board, r: int, f: int, t: u64)
    requires
        b.wf(),
        t < 64,
        spec_reachable(b, r, f, t),
    ensures
        !own_occ(b, t),
{
    let c = b.side_to_move;
    let p = b.spec_get(square(r, f)).unwrap();
    if own_occ(b, t) {
        lemma_occ_sides(b, t);
        if opp_occ(b, t) {
            if c == Color::White {
                lemma_occ_colors_disjoint(b, t);
            } else {
                lemma_occ_colors_disjoint(b, t);
            }
        }
        match p {
            Piece::WhitePawn | Piece::BlackPawn => {
                assert(b.occ_all(t));
            },
            Piece::WhiteKnight | Piece::BlackKnight => {},
            Piece::WhiteBishop | Piece::BlackBishop => {
                if ray_reaches(b, r, f, 1, 1, t) {
                    lemma_ray_not_own(b, r, f, 1, 1, t);
                }
                if ray_reaches(b, r, f, 1, -1, t) {
                    lemma_ray_not_own(b, r, f, 1, -1, t);
                }
                if ray_reaches(b, r, f, -1, 1, t) {
                    lemma_ray_not_own(b, r, f, -1, 1, t);
                }
                if ray_reaches(b, r, f, -1, -1, t) {
                    lemma_ray_not_own(b, r, f, -1, -1, t);
                }
            },
            Piece::WhiteRook | Piece::BlackRook => {
                if ray_reaches(b, r, f, 1, 0, t) {
                    lemma_ray_not_own(b, r, f, 1, 0, t);
                }
                if ray_reaches(b, r, f, -1, 0, t) {
                    lemma_ray_not_own(b, r, f, -1, 0, t);
                }
                if ray_reaches(b, r, f, 0, 1, t) {
                    lemma_ray_not_own(b, r, f, 0, 1, t);
                }
                if ray_reaches(b, r, f, 0, -1, t) {
                    lemma_ray_not_own(b, r, f, 0, -1, t);
                }
            },
            Piece::WhiteQueen | Piece::BlackQueen => {
                if ray_reaches(b, r, f, 1, 1, t) {
                    lemma_ray_not_own(b, r, f, 1, 1, t);
                }
                if ray_reaches(b, r, f, 1, -1, t) {
                    lemma_ray_not_own(b, r, f, 1, -1, t);
                }
                if ray_reaches(b, r, f, -1, 1, t) {
                    lemma_ray_not_own(b, r, f, -1, 1, t);
                }
                if ray_reaches(b, r, f, -1, -1, t) {
                    lemma_ray_not_own(b, r, f, -1, -1, t);
                }
                if ray_reaches(b, r, f, 1, 0, t) {
                    lemma_ray_not_own(b, r, f, 1, 0, t);
                }
                if ray_reaches(b, r, f, -1, 0, t) {
                    lemma_ray_not_own(b, r, f, -1, 0, t);
                }
                if ray_reaches(b, r, f, 0, 1, t) {
                    lemma_ray_not_own(b, r, f, 0, 1, t);
                }
                if ray_reaches(b, r, f, 0, -1, t) {
                    lemma_ray_not_own(b, r, f, 0, -1, t);
                }
            },
            Piece::WhiteKing | Piece::BlackKing => {
                assert(!castle_reaches(b, r, f, t) || !b.occ_all(t));
            },
        }
    }
}

/// A valid move of castling kind really is a castle: the generator accepts
/// a two-file king displacement only through the castling rule, so the king
/// stands on its home square and the rule's rook and emptiness conditions
/// all hold.
pub proof fn lemma_castle_move_is_castle(b: Board, m: Move)
    requires
        b.wf(),
        move_wf(b, m),
        m.move_type is Castling,
        spec_reachable(b, m.from.0 as int, m.from.1 as int, square(m.to.0 as int, m.to.1 as int)),
    ensures
        castle_reaches(b, m.from.0 as int, m.from.1 as int, square(m.to.0 as int, m.to.1 as int)),
        m.from.0 as int == home_rank(b.side_to_move),
        m.from.1 == 4,
        m.to.0 == m.from.0,
        m.to.1 == 6 || m.to.1 == 2,
{
    let r = m.from.0 as int;
    let f = m.from.1 as int;
    let tr = m.to.0 as int;
    let tf = m.to.1 as int;
    let t = square(tr, tf);
    assert(spec_piece_reaches(b, m.piece, r, f, t));
    assert(!king_step_reaches(b, r, f, t)) by {
        if leap_reaches(b, r, f, -1, -1, t) {
            lemma_square_injective(r + -1, f + -1, tr, tf);
        }
        if leap_reaches(b, r, f, -1, 0, t) {
            lemma_square_injective(r + -1, f + 0, tr, tf);
        }
        if leap_reaches(b, r, f, -1, 1, t) {
            lemma_square_injective(r + -1, f + 1, tr, tf);
        }
        if leap_reaches(b, r, f, 0, -1, t) {
            lemma_square_injective(r + 0, f + -1, tr, tf);
        }
        if leap_reaches(b, r, f, 0, 1, t) {
            lemma_square_injective(r + 0, f + 1, tr, tf);
        }
        if leap_reaches(b, r, f, 1, -1, t) {
            lemma_square_injective(r + 1, f + -1, tr, tf);
        }
        if leap_reaches(b, r, f, 1, 0, t) {
            lemma_square_injective(r + 1, f + 0, tr, tf);
        }
        if leap_reaches(b, r, f, 1, 1, t) {
            lemma_square_injective(r + 1, f + 1, tr, tf);
        }
    }
}

/// Two on-board coordinates with the same square index are the same
/// coordinates.
pub proof fn lemma_square_injective(r1: int, f1: int, r2: int, f2: int)
    requires
        on_board(r1, f1),
        on_board(r2, f2),
        square(r1, f1) == square(r2, f2),
    ensures
        r1 == r2 && f1 == f2,
{
}

/// Turn enforcement: a square held by the side not to move yields no
/// targets at all.
pub proof fn lemma_turn_enforcement(b: Board, r: int, f: int, t: u64)
    requires
        on_board(r, f),
        match b.spec_get(square(r, f)) {
            Some(p) => p.spec_color() != b.side_to_move,
            None => true,
        },
    ensures
        !spec_reachable(b, r, f, t),
{
}

/// Castling gating: with the kingside rights flag cleared for the side to
/// move, the king standing on its home square cannot reach the kingside
/// castle square, whatever the occupancy around it.
pub proof fn lemma_castling_gating(b: Board, t: u64)
    requires
        b.wf(),
        b.spec_get(square(home_rank(b.side_to_move), 4)) == Some(
            if b.side_to_move == Color::White {
                Piece::WhiteKing
            } else {
                Piece::BlackKing
            },
        ),
        !b.can_castle[kingside_flag(b.side_to_move)],
        t == square(home_rank(b.side_to_move), 6),
    ensures
        !spec_reachable(b, home_rank(b.side_to_move), 4, t),
{
    let c = b.side_to_move;
    let home = home_rank(c);
    assert(!castle_reaches(b, home, 4, t));
    assert(!king_step_reaches(b, home, 4, t)) by {
        assert(square(home, 6) == (home * 8 + 6) as u64);
    }
}

} // verus!
