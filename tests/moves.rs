use chess_engine::BitBoardMove;
use chess_engine::moves::{CAPTURE, DOUBLE_PAWN_PUSH, QUEEN_PROMOTION, QUEEN_PROMOTION_CAPTURE, KNIGHT_PROMOTION};

#[test]
fn test_bitboard_move() {
    let e1 = BitBoardMove::from_long_algebraic(b"e2e4").unwrap();
    println!("{} {}", e1.get_from(), e1.get_to());
    let e2 = e1.to_long_algebraic().unwrap();
    println!("{}", e2);
    assert_eq!(e2, "e2e4");
}

#[test]
fn move_fields() {
    let m = BitBoardMove::new(12, 28, DOUBLE_PAWN_PUSH);
    assert_eq!(m.get_from(), 12);
    assert_eq!(m.get_to(), 28);
    assert_eq!(m.get_flags(), DOUBLE_PAWN_PUSH);
    assert_eq!(m.0, 28 | (12 << 6) | (1 << 12));
    let mut n = m;
    n.set_to(36);
    n.set_from(20);
    n.set_flags(CAPTURE);
    assert_eq!((n.get_from(), n.get_to(), n.get_flags()), (20, 36, CAPTURE));
    assert_ne!(m, BitBoardMove::new(12, 28, 0));
}

#[test]
fn promotion_text() {
    let m = BitBoardMove::from_long_algebraic(b"e7e8Q").unwrap();
    assert_eq!(m.get_flags(), QUEEN_PROMOTION);
    assert_eq!(m.to_long_algebraic().unwrap(), "e7e8q");
    let c = BitBoardMove::new(52, 61, QUEEN_PROMOTION_CAPTURE);
    assert_eq!(c.to_long_algebraic().unwrap(), "e7f8q");
    let back = BitBoardMove::from_long_algebraic(c.to_long_algebraic().unwrap().as_bytes()).unwrap();
    assert_eq!((back.get_from(), back.get_to(), back.get_flags()), (52, 61, QUEEN_PROMOTION));
    let n = BitBoardMove::from_long_algebraic(b"a2a1n").unwrap();
    assert_eq!(n.get_flags(), KNIGHT_PROMOTION);
}

#[test]
fn move_text_errors() {
    assert!(BitBoardMove::from_long_algebraic(b"e2e").is_err());
    assert!(BitBoardMove::from_long_algebraic(b"e2e4qq").is_err());
    assert!(BitBoardMove::from_long_algebraic(b"e2e4x").is_err());
    assert!(BitBoardMove::from_long_algebraic(b"z2e4").is_err());
    assert!(BitBoardMove::from_long_algebraic(b"e2e9").is_err());
}

#[test]
fn round_trip_keeps_origin_destination_and_promotion() {
    for flags in 0..16u16 {
        let m = BitBoardMove::new(10, 50, flags);
        let text = m.to_long_algebraic().unwrap();
        let back = BitBoardMove::from_long_algebraic(text.as_bytes()).unwrap();
        assert_eq!(back.get_from(), 10);
        assert_eq!(back.get_to(), 50);
        let expected = if flags >= 8 { 8 + flags % 4 } else { 0 };
        assert_eq!(back.get_flags(), expected);
    }
}

#[test]
fn test_move_targets() {
    let board = chess_engine::BitBoardState::from_fen(
        "r3k2r/p1ppqpb1/bn2pnp1/3PN3/1p2P3/2N2Q1p/PPPBBPPP/R3K2R w KQkq -  ",
    )
    .unwrap();
    let moves = chess_engine::generate_moves(&board);
    for m in &moves {
        let from_i = chess_engine::index_to_algebraic(m.get_from() as usize);
        let from = std::str::from_utf8(&from_i).unwrap();
        let to_i = chess_engine::index_to_algebraic(m.get_to() as usize);
        let to = std::str::from_utf8(&to_i).unwrap();
        println!("from {} to {} : flags {:04b}", from, to, m.get_flags());
    }
    assert_eq!(moves.len(), 48);
}
