use chess::bitset::Bitset;
use chess::board::Board;
use chess::movegen::valid_moves;
use chess::piece::Piece;

#[test]
fn bishop_empty_board() {
    let mut board = Board::new();
    board.set(4, 4, Piece::WhiteBishop);

    assert_eq!(valid_moves(&board, &(4, 4)), Bitset::new(0x8244280028448201));
}

#[test]
fn bishop_same_color_block() {
    let mut board = Board::new();
    board.set(4, 4, Piece::WhiteBishop);

    board.set(3, 3, Piece::WhitePawn);
    board.set(6, 6, Piece::WhitePawn);

    assert_eq!(valid_moves(&board, &(4, 4)), Bitset::new(0x0204280020408000));
}

#[test]
fn rook_empty_board() {
    let mut board = Board::new();
    board.set(4, 4, Piece::WhiteRook);

    assert_eq!(valid_moves(&board, &(4, 4)), Bitset::new(0x101010ef10101010));
}

#[test]
fn queen_empty_board() {
    let mut board = Board::new();
    board.set(4, 4, Piece::WhiteQueen);

    assert_eq!(valid_moves(&board, &(4, 4)), Bitset::new(0x925438ef38549211));
}

#[test]
fn empty_square_yields_no_moves() {
    let board = Board::new();
    assert_eq!(valid_moves(&board, &(4, 4)), Bitset::new(0));
}

#[test]
fn out_of_turn_yields_no_moves() {
    // white to move: a black queen's square generates nothing
    let mut board = Board::new();
    board.set(4, 4, Piece::BlackQueen);
    assert_eq!(valid_moves(&board, &(4, 4)), Bitset::new(0));
}

#[test]
fn rook_capture_stops_ray() {
    let mut board = Board::new();
    board.set(4, 4, Piece::WhiteRook);
    board.set(4, 6, Piece::BlackPawn);

    let moves = valid_moves(&board, &(4, 4));
    // the opposing pawn's square is included, the square beyond it is not
    assert!(moves.is_bit_set(4 * 8 + 6));
    assert!(!moves.is_bit_set(4 * 8 + 7));
    // an own-side blocker's square would be excluded outright
    assert!(moves.is_bit_set(4 * 8 + 5));
}

#[test]
fn knight_moves_and_blockers() {
    let mut board = Board::new();
    board.set(4, 4, Piece::WhiteKnight);
    board.set(2, 3, Piece::WhitePawn);
    board.set(2, 5, Piece::BlackPawn);

    let moves = valid_moves(&board, &(4, 4));
    assert!(!moves.is_bit_set(2 * 8 + 3)); // own piece
    assert!(moves.is_bit_set(2 * 8 + 5)); // capture
    assert!(moves.is_bit_set(3 * 8 + 2));
    assert!(moves.is_bit_set(3 * 8 + 6));
    assert!(moves.is_bit_set(5 * 8 + 2));
    assert!(moves.is_bit_set(5 * 8 + 6));
    assert!(moves.is_bit_set(6 * 8 + 3));
    assert!(moves.is_bit_set(6 * 8 + 5));
}

#[test]
fn knight_corner_has_two_moves() {
    let mut board = Board::new();
    board.set(0, 0, Piece::WhiteKnight);
    let moves = valid_moves(&board, &(0, 0));
    assert_eq!(moves.set_bit_indices(), vec![1 * 8 + 2, 2 * 8 + 1]);
}

#[test]
fn king_moves_single_steps() {
    let mut board = Board::new();
    board.set(4, 4, Piece::WhiteKing);
    board.set(3, 4, Piece::WhitePawn);
    board.set(5, 5, Piece::BlackPawn);

    let moves = valid_moves(&board, &(4, 4));
    assert!(!moves.is_bit_set(3 * 8 + 4)); // own piece
    assert!(moves.is_bit_set(5 * 8 + 5)); // capture
    assert!(moves.is_bit_set(3 * 8 + 3));
    assert!(moves.is_bit_set(4 * 8 + 3));
    assert!(moves.is_bit_set(4 * 8 + 5));
    assert!(!moves.is_bit_set(4 * 8 + 6)); // two files away is no king step
}

#[test]
fn white_pawn_pushes_and_captures() {
    let mut board = Board::new();
    board.set(6, 4, Piece::WhitePawn);
    board.set(5, 3, Piece::BlackPawn);
    board.set(5, 5, Piece::WhitePawn);

    let moves = valid_moves(&board, &(6, 4));
    assert!(moves.is_bit_set(5 * 8 + 4)); // single push
    assert!(moves.is_bit_set(4 * 8 + 4)); // double push from the start rank
    assert!(moves.is_bit_set(5 * 8 + 3)); // capture of the black pawn
    assert!(!moves.is_bit_set(5 * 8 + 5)); // no capture of an own pawn
}

#[test]
fn black_pawn_moves_down_the_board() {
    let mut board = Board::from_fen("8/4p3/8/8/8/8/8/8 b - - 0 1").unwrap();
    let moves = valid_moves(&mut board, &(1, 4));
    assert!(moves.is_bit_set(2 * 8 + 4));
    assert!(moves.is_bit_set(3 * 8 + 4));
    assert!(!moves.is_bit_set(0 * 8 + 4));
}

#[test]
fn pawn_single_push_blocked() {
    let mut board = Board::new();
    board.set(6, 4, Piece::WhitePawn);
    board.set(5, 4, Piece::BlackPawn);

    let moves = valid_moves(&board, &(6, 4));
    assert!(!moves.is_bit_set(5 * 8 + 4));
}

#[test]
fn pawn_double_push_checks_destination_only() {
    // the double push consults its destination alone: a blocker on the
    // passed-over square does not stop it
    let mut board = Board::new();
    board.set(6, 4, Piece::WhitePawn);
    board.set(5, 4, Piece::BlackPawn);

    let moves = valid_moves(&board, &(6, 4));
    assert!(moves.is_bit_set(4 * 8 + 4));

    // a blocker on the destination itself does stop it
    let mut board = Board::new();
    board.set(6, 3, Piece::WhitePawn);
    board.set(4, 3, Piece::BlackPawn);
    let moves = valid_moves(&board, &(6, 3));
    assert!(!moves.is_bit_set(4 * 8 + 3));
}

#[test]
fn pawn_off_start_rank_has_no_double_push() {
    let mut board = Board::new();
    board.set(5, 4, Piece::WhitePawn);
    let moves = valid_moves(&board, &(5, 4));
    assert!(moves.is_bit_set(4 * 8 + 4));
    assert!(!moves.is_bit_set(3 * 8 + 4));
}

#[test]
fn castling_both_sides_when_clear() {
    let board = Board::from_fen("8/8/8/8/8/8/8/R3K2R w KQkq - 0 1").unwrap();
    let moves = valid_moves(&board, &(7, 4));
    assert!(moves.is_bit_set(7 * 8 + 6)); // kingside
    assert!(moves.is_bit_set(7 * 8 + 2)); // queenside
}

#[test]
fn castling_gated_by_rights() {
    // kingside rights cleared: the two-files-over square is never a target
    // even with the rook at home and the path clear
    let board = Board::from_fen("8/8/8/8/8/8/8/R3K2R w Qkq - 0 1").unwrap();
    let moves = valid_moves(&board, &(7, 4));
    assert!(!moves.is_bit_set(7 * 8 + 6));
    assert!(moves.is_bit_set(7 * 8 + 2)); // queenside rights remain
}

#[test]
fn castling_blocked_by_occupancy() {
    let board = Board::from_fen("8/8/8/8/8/8/8/Rn2K1NR w KQkq - 0 1").unwrap();
    let moves = valid_moves(&board, &(7, 4));
    assert!(!moves.is_bit_set(7 * 8 + 6)); // knight on g1
    assert!(!moves.is_bit_set(7 * 8 + 2)); // knight on b1
}

#[test]
fn castling_needs_rook_at_home() {
    let board = Board::from_fen("8/8/8/8/8/8/8/4K2R b KQkq - 0 1").unwrap();
    // black to move has no king on its home square; white's rook alone
    // gives white nothing while it is not white's turn
    assert_eq!(valid_moves(&board, &(7, 4)), Bitset::new(0));

    let board = Board::from_fen("8/8/8/8/8/8/8/4K3 w KQkq - 0 1").unwrap();
    let moves = valid_moves(&board, &(7, 4));
    assert!(!moves.is_bit_set(7 * 8 + 6));
    assert!(!moves.is_bit_set(7 * 8 + 2));
}
