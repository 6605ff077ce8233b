use chess::board::Board;
use chess::piece::{Color, Piece};

const EMPTY_FEN_STRING: &str = "8/8/8/8/8/8/8/8 w KQkq - 0 1";
const STARTING_FEN_STRING: &str = "rnbqkbnr/pppppppp/8/8/8/8/PPPPPPPP/RNBQKBNR w KQkq - 0 1";

#[test]
fn empty_fen() {
    let board = Board::from_fen(EMPTY_FEN_STRING).unwrap();

    for rank in 0..8 {
        for file in 0..8 {
            assert_eq!(board.get(rank, file), None)
        }
    }
}

#[test]
fn starting_fen() {
    let board = Board::from_fen(STARTING_FEN_STRING).unwrap();

    assert_eq!(board.get(0, 0), Some(Piece::BlackRook));
    assert_eq!(board.get(0, 1), Some(Piece::BlackKnight));
    assert_eq!(board.get(0, 2), Some(Piece::BlackBishop));
    assert_eq!(board.get(0, 3), Some(Piece::BlackQueen));
    assert_eq!(board.get(0, 4), Some(Piece::BlackKing));
    assert_eq!(board.get(0, 5), Some(Piece::BlackBishop));
    assert_eq!(board.get(0, 6), Some(Piece::BlackKnight));
    assert_eq!(board.get(0, 7), Some(Piece::BlackRook));

    for file in 0..8 {
        assert_eq!(board.get(1, file), Some(Piece::BlackPawn));
        assert_eq!(board.get(6, file), Some(Piece::WhitePawn));
    }

    for rank in 2..6 {
        for file in 0..8 {
            assert_eq!(board.get(rank, file), None);
        }
    }

    assert_eq!(board.get(7, 0), Some(Piece::WhiteRook));
    assert_eq!(board.get(7, 1), Some(Piece::WhiteKnight));
    assert_eq!(board.get(7, 2), Some(Piece::WhiteBishop));
    assert_eq!(board.get(7, 3), Some(Piece::WhiteQueen));
    assert_eq!(board.get(7, 4), Some(Piece::WhiteKing));
    assert_eq!(board.get(7, 5), Some(Piece::WhiteBishop));
    assert_eq!(board.get(7, 6), Some(Piece::WhiteKnight));
    assert_eq!(board.get(7, 7), Some(Piece::WhiteRook));
}

#[test]
fn random_fen() {
    let board =
        Board::from_fen("r2q1rk1/2p1bppp/p1n1bn2/1p2p3/4P3/2P2N2/PPBN1PPP/R1BQR1K1 w - - 1 12")
            .unwrap();

    assert_eq!(board.get(0, 0), Some(Piece::BlackRook));
    assert_eq!(board.get(0, 3), Some(Piece::BlackQueen));
    assert_eq!(board.get(0, 6), Some(Piece::BlackKing));

    assert_eq!(board.get(1, 4), Some(Piece::BlackBishop));

    assert_eq!(board.get(2, 2), Some(Piece::BlackKnight));
    assert_eq!(board.get(2, 5), Some(Piece::BlackKnight));

    assert_eq!(board.get(6, 2), Some(Piece::WhiteBishop));

    assert_eq!(board.get(7, 0), Some(Piece::WhiteRook));
    assert_eq!(board.get(7, 3), Some(Piece::WhiteQueen));
    assert_eq!(board.get(7, 6), Some(Piece::WhiteKing));
}

#[test]
#[should_panic]
fn invalid_fen() {
    Board::from_fen("invalid fen string").unwrap();
}

#[test]
#[should_panic]
fn invalid_fen_wrong_char() {
    Board::from_fen("Hnbqkbnr/pppppppp/8/8/8/8/PPPPPPPP/RNBQKBNR w KQkq - 0 1").unwrap();
}

#[test]
#[should_panic]
fn invalid_fen_too_many_chars() {
    Board::from_fen("rrrrnbqkbnr/pppppppp/8/8/8/8/PPPPPPPP/RNBQKBNR w KQkq - 0 1").unwrap();
}

#[test]
#[should_panic]
fn invalid_fen_too_many_rows() {
    Board::from_fen("rnbqkbnr/pppppppp/8/8/8/8/PPPPPPPP/RNBQKBNR/8 w KQkq - 0 1").unwrap();
}

#[test]
fn fen_side_and_castling_fields() {
    let board = Board::from_fen("8/8/8/8/8/8/8/8 b Kq - 0 1").unwrap();
    assert_eq!(board.side_to_move, Color::Black);
    assert_eq!(board.can_castle, [true, false, false, true]);

    let board = Board::from_fen("8/8/8/8/8/8/8/8 w - - 0 1").unwrap();
    assert_eq!(board.side_to_move, Color::White);
    assert_eq!(board.can_castle, [false, false, false, false]);

    // a dash stops the scan: letters after it are ignored
    let board = Board::from_fen("8/8/8/8/8/8/8/8 w K-q - 0 1").unwrap();
    assert_eq!(board.can_castle, [true, false, false, false]);
}

#[test]
fn fen_wrong_field_count() {
    assert!(Board::from_fen("8/8/8/8/8/8/8/8 w KQkq - 0").is_none());
    assert!(Board::from_fen("8/8/8/8/8/8/8/8 w KQkq - 0 1 extra").is_none());
}

#[test]
fn fen_invalid_side_or_castle() {
    assert!(Board::from_fen("8/8/8/8/8/8/8/8 x KQkq - 0 1").is_none());
    assert!(Board::from_fen("8/8/8/8/8/8/8/8 w KXkq - 0 1").is_none());
}

#[test]
fn fen_rank_overrun_by_digits_is_rejected() {
    assert!(Board::from_fen("88/8/8/8/8/8/8/8 w KQkq - 0 1").is_none());
}

#[test]
fn fen_accepts_fewer_than_eight_ranks() {
    let board = Board::from_fen("8 w KQkq - 0 1").unwrap();
    for rank in 0..8 {
        for file in 0..8 {
            assert_eq!(board.get(rank, file), None);
        }
    }
}

#[test]
fn fen_round_trip_every_square() {
    // the descriptor's placement field is reproduced exactly by the query
    let fen = "r3k2r/p1ppqpb1/bn2pnp1/3PN3/1p2P3/2N2Q1p/PPPB1PPP/R3KB1R w KQkq - 1 1";
    let board = Board::from_fen(fen).unwrap();
    let expected = [
        "r...k..r", "p.ppqpb.", "bn..pnp.", "...PN...", ".p..P...", "..N..Q.p", "PPPB.PPP",
        "R...KB.R",
    ];
    for rank in 0..8u8 {
        for file in 0..8u8 {
            let want = expected[rank as usize].as_bytes()[file as usize] as char;
            match board.get(rank, file) {
                Some(piece) => assert_eq!(piece.simple_char(), want),
                None => assert_eq!(want, '.'),
            }
        }
    }
}

#[test]
fn query_is_idempotent() {
    let board = Board::from_fen(STARTING_FEN_STRING).unwrap();
    for rank in 0..8 {
        for file in 0..8 {
            assert_eq!(board.get(rank, file), board.get(rank, file));
        }
    }
}

#[test]
fn place_and_remove_mirror_occupancy() {
    let mut board = Board::new();
    assert_eq!(board.side_to_move, Color::White);
    assert_eq!(board.can_castle, [true, true, true, true]);

    board.set(3, 1, Piece::WhiteRook);
    board.set(1, 1, Piece::BlackQueen);

    assert_eq!(board.get(3, 1), Some(Piece::WhiteRook));
    assert_eq!(board.get(1, 1), Some(Piece::BlackQueen));

    // occupancy sets mirror the piece sets: all, white, black
    assert!(board.occupied[0].is_bit_set(3 * 8 + 1));
    assert!(board.occupied[1].is_bit_set(3 * 8 + 1));
    assert!(!board.occupied[2].is_bit_set(3 * 8 + 1));
    assert!(board.occupied[0].is_bit_set(1 * 8 + 1));
    assert!(!board.occupied[1].is_bit_set(1 * 8 + 1));
    assert!(board.occupied[2].is_bit_set(1 * 8 + 1));

    board.clear(3, 1, Piece::WhiteRook);
    assert_eq!(board.get(3, 1), None);
    assert!(!board.occupied[0].is_bit_set(3 * 8 + 1));
    assert!(!board.occupied[1].is_bit_set(3 * 8 + 1));
}
