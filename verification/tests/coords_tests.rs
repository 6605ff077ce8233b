use chess::bitset::Bitset;
use chess::board::Board;
use chess::coords::{bitset_to_pos, current_side_moves, index_to_pos, pos_to_index};
use chess::piece::{Color, Piece};

#[test]
fn coordinates_decode_to_square_indices() {
    assert_eq!(pos_to_index("a1"), Some((7, 0)));
    assert_eq!(pos_to_index("a8"), Some((0, 0)));
    assert_eq!(pos_to_index("h1"), Some((7, 7)));
    assert_eq!(pos_to_index("h8"), Some((0, 7)));
    assert_eq!(pos_to_index("e4"), Some((4, 4)));
}

#[test]
fn bad_coordinates_decode_to_nothing() {
    assert_eq!(pos_to_index("i1"), None);
    assert_eq!(pos_to_index("a9"), None);
    assert_eq!(pos_to_index("a0"), None);
    assert_eq!(pos_to_index(""), None);
    assert_eq!(pos_to_index("e"), None);
    assert_eq!(pos_to_index("e44"), None);
    assert_eq!(pos_to_index("4e"), None);
}

#[test]
fn indices_encode_to_coordinates() {
    assert_eq!(index_to_pos((7, 0)).as_deref(), Some("a1"));
    assert_eq!(index_to_pos((0, 0)).as_deref(), Some("a8"));
    assert_eq!(index_to_pos((4, 4)).as_deref(), Some("e4"));
    assert_eq!(index_to_pos((8, 0)), None);
    assert_eq!(index_to_pos((0, 8)), None);
}

#[test]
fn coordinate_round_trip() {
    for rank in 0..8u8 {
        for file in 0..8u8 {
            let text = index_to_pos((rank, file)).unwrap();
            assert_eq!(pos_to_index(&text), Some((rank, file)));
        }
    }
}

#[test]
fn bitset_positions_list_members_in_order() {
    let mut b = Bitset::new(0);
    b.set_bit(0); // a8
    b.set_bit(36); // e4
    b.set_bit(63); // h1
    assert_eq!(bitset_to_pos(b), vec!["a8", "e4", "h1"]);
    assert_eq!(bitset_to_pos(Bitset::new(0)), Vec::<String>::new());
}

#[test]
fn starting_position_has_twenty_moves() {
    let board =
        Board::from_fen("rnbqkbnr/pppppppp/8/8/8/8/PPPPPPPP/RNBQKBNR w KQkq - 0 1").unwrap();
    let moves = current_side_moves(&board);
    assert_eq!(moves.len(), 20);
    for m in &moves {
        assert_eq!(m.piece.color(), Color::White);
    }
}

#[test]
fn side_moves_enumerate_origin_then_destination() {
    let board = Board::from_fen("8/8/8/8/8/8/8/N6N w - - 0 1").unwrap();
    let moves = current_side_moves(&board);
    assert_eq!(moves.len(), 4);
    assert_eq!(moves[0].from, (7, 0));
    assert_eq!(moves[0].to, (5, 1));
    assert_eq!(moves[1].from, (7, 0));
    assert_eq!(moves[1].to, (6, 2));
    assert_eq!(moves[2].from, (7, 7));
    assert_eq!(moves[2].to, (5, 6));
    assert_eq!(moves[3].from, (7, 7));
    assert_eq!(moves[3].to, (6, 5));
    assert!(moves.iter().all(|m| m.piece == Piece::WhiteKnight));
}

#[test]
fn color_and_piece_indices() {
    assert_eq!(Color::White.index(), 1);
    assert_eq!(Color::Black.index(), 2);
    assert_eq!(Color::from_index(1), Some(Color::White));
    assert_eq!(Color::from_index(2), Some(Color::Black));
    assert_eq!(Color::from_index(0), None);
    assert_eq!(Color::White.opposite(), Color::Black);
    assert_eq!(Color::Black.opposite(), Color::White);

    for i in 0..12 {
        let p = Piece::from_index(i).unwrap();
        assert_eq!(p.index(), i);
        assert_eq!(Piece::from_char(p.simple_char()), Some(p));
    }
    assert_eq!(Piece::from_index(12), None);
    assert_eq!(Piece::WhiteQueen.color(), Color::White);
    assert_eq!(Piece::BlackPawn.color(), Color::Black);
    assert_eq!(Piece::from_char('Z'), None);
}

#[test]
fn bitset_operations() {
    let mut a = Bitset::new(0);
    a.set_bit(3);
    a.set_bit(40);
    assert!(a.is_bit_set(3));
    assert!(a.is_bit_set(40));
    assert!(!a.is_bit_set(4));
    assert_eq!(a.get_bit(3), 1 << 3);
    assert_eq!(a.get_bit(4), 0);

    a.clear_bit(3);
    assert!(!a.is_bit_set(3));

    let b = Bitset::new(0b1100);
    let c = Bitset::new(0b1010);
    assert_eq!(b.union(c), Bitset::new(0b1110));
    assert_eq!(b.intersect(c), Bitset::new(0b1000));

    let mut d = b;
    d.union_with(c);
    assert_eq!(d, Bitset::new(0b1110));
    let mut e = b;
    e.intersect_with(c);
    assert_eq!(e, Bitset::new(0b1000));

    assert_eq!(Bitset::new(0b1010_0001).set_bit_indices(), vec![0, 5, 7]);
}
