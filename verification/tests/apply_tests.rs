use chess::board::Board;
use chess::coords::parse_move;
use chess::movegen::{InvalidMove, Move, MoveType};
use chess::piece::{Color, Piece};

#[test]
fn normal_move_relocates_piece_and_flips_side() {
    let mut board = Board::from_fen("8/8/8/8/8/8/8/4N3 w - - 0 1").unwrap();
    let m = parse_move(&board, (7, 4), (5, 5)).unwrap();
    assert!(matches!(m.move_type, MoveType::Normal));
    assert_eq!(board.make_move(&m), Ok(()));
    assert_eq!(board.get(7, 4), None);
    assert_eq!(board.get(5, 5), Some(Piece::WhiteKnight));
    assert_eq!(board.side_to_move, Color::Black);
}

#[test]
fn rejected_move_leaves_position_unchanged() {
    let mut board = Board::from_fen("8/8/8/8/8/8/8/4N3 w - - 0 1").unwrap();
    let before_pieces = board.pieces;
    let before_occupied = board.occupied;
    let m = parse_move(&board, (7, 4), (4, 4)).unwrap();
    assert_eq!(board.make_move(&m), Err(InvalidMove));
    assert_eq!(board.pieces, before_pieces);
    assert_eq!(board.occupied, before_occupied);
    assert_eq!(board.side_to_move, Color::White);
}

#[test]
fn out_of_turn_move_is_rejected() {
    let mut board = Board::from_fen("4n3/8/8/8/8/8/8/8 w - - 0 1").unwrap();
    let m = parse_move(&board, (0, 4), (2, 3)).unwrap();
    assert_eq!(board.make_move(&m), Err(InvalidMove));
}

#[test]
fn capture_removes_captured_piece() {
    let mut board = Board::from_fen("8/8/8/8/8/5p2/8/4N3 w - - 0 1").unwrap();
    let m = parse_move(&board, (7, 4), (5, 5)).unwrap();
    assert_eq!(m.move_type, MoveType::Capture(Piece::BlackPawn));
    assert_eq!(board.make_move(&m), Ok(()));
    assert_eq!(board.get(5, 5), Some(Piece::WhiteKnight));
    assert_eq!(board.get(7, 4), None);
    // the occupancy mirrors stay exact after the capture
    assert!(board.occupied[0].is_bit_set(5 * 8 + 5));
    assert!(board.occupied[1].is_bit_set(5 * 8 + 5));
    assert!(!board.occupied[2].is_bit_set(5 * 8 + 5));
}

#[test]
fn kingside_castle_relocates_rook_and_clears_rights() {
    let mut board = Board::from_fen("8/8/8/8/8/8/8/R3K2R w KQ - 0 1").unwrap();
    let m = parse_move(&board, (7, 4), (7, 6)).unwrap();
    assert!(matches!(m.move_type, MoveType::Castling));
    assert_eq!(board.make_move(&m), Ok(()));
    assert_eq!(board.get(7, 6), Some(Piece::WhiteKing));
    assert_eq!(board.get(7, 5), Some(Piece::WhiteRook));
    assert_eq!(board.get(7, 7), None);
    assert_eq!(board.get(7, 4), None);
    assert_eq!(board.can_castle, [false, false, false, false]);
    assert_eq!(board.side_to_move, Color::Black);
}

#[test]
fn queenside_castle_relocates_rook() {
    let mut board = Board::from_fen("r3k3/8/8/8/8/8/8/8 b kq - 0 1").unwrap();
    let m = parse_move(&board, (0, 4), (0, 2)).unwrap();
    assert!(matches!(m.move_type, MoveType::Castling));
    assert_eq!(board.make_move(&m), Ok(()));
    assert_eq!(board.get(0, 2), Some(Piece::BlackKing));
    assert_eq!(board.get(0, 3), Some(Piece::BlackRook));
    assert_eq!(board.get(0, 0), None);
    assert_eq!(board.can_castle, [false, false, false, false]);
}

#[test]
fn king_move_revokes_both_rights() {
    let mut board = Board::from_fen("8/8/8/8/8/8/8/R3K2R w KQkq - 0 1").unwrap();
    let m = parse_move(&board, (7, 4), (6, 4)).unwrap();
    assert_eq!(board.make_move(&m), Ok(()));
    assert_eq!(board.can_castle, [false, false, true, true]);
}

#[test]
fn rook_move_revokes_matching_right() {
    let mut board = Board::from_fen("8/8/8/8/8/8/8/R3K2R w KQkq - 0 1").unwrap();
    let m = parse_move(&board, (7, 7), (6, 7)).unwrap();
    assert_eq!(board.make_move(&m), Ok(()));
    assert_eq!(board.can_castle, [false, true, true, true]);

    let mut board = Board::from_fen("8/8/8/8/8/8/8/R3K2R w KQkq - 0 1").unwrap();
    let m = parse_move(&board, (7, 0), (6, 0)).unwrap();
    assert_eq!(board.make_move(&m), Ok(()));
    assert_eq!(board.can_castle, [true, false, true, true]);
}

#[test]
fn queen_sliding_to_castle_square_is_no_castle() {
    // a queen on the king's home square moving two files sideways is an
    // ordinary move: no rook teleports, no rights are touched beyond none
    let mut board = Board::from_fen("8/8/8/8/8/8/8/4Q2R w KQkq - 0 1").unwrap();
    let m = parse_move(&board, (7, 4), (7, 6)).unwrap();
    assert!(matches!(m.move_type, MoveType::Normal));
    assert_eq!(board.make_move(&m), Ok(()));
    assert_eq!(board.get(7, 6), Some(Piece::WhiteQueen));
    assert_eq!(board.get(7, 7), Some(Piece::WhiteRook));
    assert_eq!(board.can_castle, [true, true, true, true]);
}

#[test]
fn capture_kind_is_read_off_the_board() {
    let board = Board::from_fen("8/8/8/8/8/5p2/8/4N3 w - - 0 1").unwrap();
    let capture = parse_move(&board, (7, 4), (5, 5)).unwrap();
    assert_eq!(capture.piece, Piece::WhiteKnight);
    assert_eq!(capture.move_type, MoveType::Capture(Piece::BlackPawn));

    let normal = parse_move(&board, (7, 4), (5, 3)).unwrap();
    assert_eq!(normal.move_type, MoveType::Normal);

    assert!(parse_move(&board, (3, 3), (4, 4)).is_none());
}

#[test]
fn full_move_values_round_through_apply() {
    let mut board = Board::from_fen(
        "rnbqkbnr/pppppppp/8/8/8/8/PPPPPPPP/RNBQKBNR w KQkq - 0 1",
    )
    .unwrap();
    let pawn_push = Move {
        from: (6, 4),
        to: (4, 4),
        piece: Piece::WhitePawn,
        move_type: MoveType::Normal,
    };
    assert_eq!(board.make_move(&pawn_push), Ok(()));
    assert_eq!(board.get(4, 4), Some(Piece::WhitePawn));
    assert_eq!(board.side_to_move, Color::Black);

    let reply = Move {
        from: (1, 4),
        to: (3, 4),
        piece: Piece::BlackPawn,
        move_type: MoveType::Normal,
    };
    assert_eq!(board.make_move(&reply), Ok(()));
    assert_eq!(board.get(3, 4), Some(Piece::BlackPawn));
    assert_eq!(board.side_to_move, Color::White);
}
