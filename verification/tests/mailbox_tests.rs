use chess::mailbox::board::{Board, Move};
use chess::mailbox::piece::{Color, Piece, Square};

const EMPTY_FEN_STRING: &str = "8/8/8/8/8/8/8/8 w KQkq - 0 1";
const STARTING_FEN_STRING: &str = "rnbqkbnr/pppppppp/8/8/8/8/PPPPPPPP/RNBQKBNR w KQkq - 0 1";

#[test]
fn board_empty_fen() {
    let board = Board::from_fen(EMPTY_FEN_STRING).unwrap();
    for rank in 0..8 {
        for file in 0..8 {
            assert_eq!(board.get(rank, file), Square(None));
        }
    }
}

#[test]
fn board_starting_fen() {
    let board = Board::from_fen(STARTING_FEN_STRING).unwrap();

    assert_eq!(board.get(0, 0), Square(Some(Piece::rook(Color::Black))));
    assert_eq!(board.get(0, 1), Square(Some(Piece::knight(Color::Black))));
    assert_eq!(board.get(0, 2), Square(Some(Piece::bishop(Color::Black))));
    assert_eq!(board.get(0, 3), Square(Some(Piece::queen(Color::Black))));
    assert_eq!(board.get(0, 4), Square(Some(Piece::king(Color::Black))));
    assert_eq!(board.get(0, 5), Square(Some(Piece::bishop(Color::Black))));
    assert_eq!(board.get(0, 6), Square(Some(Piece::knight(Color::Black))));
    assert_eq!(board.get(0, 7), Square(Some(Piece::rook(Color::Black))));

    for file in 0..8 {
        assert_eq!(board.get(1, file), Square(Some(Piece::pawn(Color::Black))));
        assert_eq!(board.get(6, file), Square(Some(Piece::pawn(Color::White))));
    }

    for rank in 2..6 {
        for file in 0..8 {
            assert_eq!(board.get(rank, file), Square(None));
        }
    }

    assert_eq!(board.get(7, 0), Square(Some(Piece::rook(Color::White))));
    assert_eq!(board.get(7, 1), Square(Some(Piece::knight(Color::White))));
    assert_eq!(board.get(7, 2), Square(Some(Piece::bishop(Color::White))));
    assert_eq!(board.get(7, 3), Square(Some(Piece::queen(Color::White))));
    assert_eq!(board.get(7, 4), Square(Some(Piece::king(Color::White))));
    assert_eq!(board.get(7, 5), Square(Some(Piece::bishop(Color::White))));
    assert_eq!(board.get(7, 6), Square(Some(Piece::knight(Color::White))));
    assert_eq!(board.get(7, 7), Square(Some(Piece::rook(Color::White))));
}

#[test]
fn board_random_fen() {
    let board =
        Board::from_fen("r2q1rk1/2p1bppp/p1n1bn2/1p2p3/4P3/2P2N2/PPBN1PPP/R1BQR1K1 w - - 1 12")
            .unwrap();

    assert_eq!(board.get(0, 0), Square(Some(Piece::rook(Color::Black))));
    assert_eq!(board.get(0, 3), Square(Some(Piece::queen(Color::Black))));
    assert_eq!(board.get(0, 6), Square(Some(Piece::king(Color::Black))));

    assert_eq!(board.get(1, 4), Square(Some(Piece::bishop(Color::Black))));

    assert_eq!(board.get(2, 2), Square(Some(Piece::knight(Color::Black))));
    assert_eq!(board.get(2, 5), Square(Some(Piece::knight(Color::Black))));

    assert_eq!(board.get(6, 2), Square(Some(Piece::bishop(Color::White))));

    assert_eq!(board.get(7, 0), Square(Some(Piece::rook(Color::White))));
    assert_eq!(board.get(7, 3), Square(Some(Piece::queen(Color::White))));
    assert_eq!(board.get(7, 6), Square(Some(Piece::king(Color::White))));
}

#[test]
#[should_panic]
fn board_invalid_fen() {
    Board::from_fen("invalid fen string").unwrap();
}

#[test]
#[should_panic]
fn board_invalid_fen_wrong_char() {
    Board::from_fen("Hnbqkbnr/pppppppp/8/8/8/8/PPPPPPPP/RNBQKBNR w KQkq - 0 1").unwrap();
}

#[test]
#[should_panic]
fn board_invalid_fen_too_many_chars() {
    Board::from_fen("rrrrnbqkbnr/pppppppp/8/8/8/8/PPPPPPPP/RNBQKBNR w KQkq - 0 1").unwrap();
}

#[test]
#[should_panic]
fn board_invalid_fen_too_many_rows() {
    Board::from_fen("rnbqkbnr/pppppppp/8/8/8/8/PPPPPPPP/RNBQKBNR/8 w KQkq - 0 1").unwrap();
}

#[test]
fn grid_fen_tolerates_digit_overrun() {
    // the grid parser never counts files at a rank's end: a digit run may
    // overshoot eight as long as no piece lands off the grid
    let board = Board::from_fen("88/8/8/8/8/8/8/8 w KQkq - 0 1").unwrap();
    for rank in 0..8 {
        for file in 0..8 {
            assert_eq!(board.get(rank, file), Square(None));
        }
    }
}

#[test]
fn board_set_and_get() {
    let mut board = Board::new();
    board.set(3, 3, Square(Some(Piece::queen(Color::White))));
    assert_eq!(board.get(3, 3), Square(Some(Piece::queen(Color::White))));
    board.set(3, 3, Square(None));
    assert_eq!(board.get(3, 3), Square(None));
}

#[test]
fn rook_slides_and_captures_on_grid() {
    let mut board = Board::new();
    board.set(4, 2, Square(Some(Piece::rook(Color::White))));
    board.set(4, 6, Square(Some(Piece::pawn(Color::Black))));
    board.set(1, 2, Square(Some(Piece::pawn(Color::White))));

    // along the rank: empty path accepted, capture accepted, square past
    // the blocker refused
    assert!(board.is_move_valid(&Move { start: (4, 2), end: (4, 5) }));
    assert!(board.is_move_valid(&Move { start: (4, 2), end: (4, 6) }));
    assert!(!board.is_move_valid(&Move { start: (4, 2), end: (4, 7) }));

    // along the file: own piece refuses
    assert!(board.is_move_valid(&Move { start: (4, 2), end: (2, 2) }));
    assert!(!board.is_move_valid(&Move { start: (4, 2), end: (1, 2) }));

    // neither same rank nor same file refuses, and so does an empty origin
    assert!(!board.is_move_valid(&Move { start: (4, 2), end: (5, 3) }));
    assert!(!board.is_move_valid(&Move { start: (3, 3), end: (3, 5) }));
}

#[test]
fn grid_make_move_applies_or_leaves_alone() {
    let mut board = Board::new();
    board.set(4, 2, Square(Some(Piece::rook(Color::White))));

    assert!(board.make_move(&Move { start: (4, 2), end: (4, 5) }));
    assert_eq!(board.get(4, 2), Square(None));
    assert_eq!(board.get(4, 5), Square(Some(Piece::rook(Color::White))));

    assert!(!board.make_move(&Move { start: (4, 5), end: (5, 6) }));
    assert_eq!(board.get(4, 5), Square(Some(Piece::rook(Color::White))));
}

#[test]
fn piece_chars_round_trip() {
    let pieces = [
        Piece::pawn(Color::White),
        Piece::knight(Color::White),
        Piece::bishop(Color::White),
        Piece::rook(Color::White),
        Piece::queen(Color::White),
        Piece::king(Color::White),
        Piece::pawn(Color::Black),
        Piece::knight(Color::Black),
        Piece::bishop(Color::Black),
        Piece::rook(Color::Black),
        Piece::queen(Color::Black),
        Piece::king(Color::Black),
    ];
    for p in pieces {
        assert_eq!(Piece::from_char(p.simple_char()), Some(p));
    }
    assert_eq!(Piece::from_char('x'), None);
}
