use chess_engine::{BitBoardMove, BitBoardState, BoardMailbox, Color, FenError, Piece};

const START: &str = "rnbqkbnr/pppppppp/8/8/8/8/PPPPPPPP/RNBQKBNR w KQkq - 0 1";

#[test]
fn board_fen() {
    BitBoardState::from_fen("rnbqkbnr/pppppppp/8/8/8/8/PPPPPPPP/RNBQKBNR w KQkq - 0 1").unwrap();
    BitBoardState::from_fen("rnbqkbnr/pppppppp/8/8/4P3/8/PPPP1PPP/RNBQKBNR b KQkq e3 0 1").unwrap();
    let board1 =
        BitBoardState::from_fen("rnbqkbnr/pp1ppppp/8/2p5/4P3/8/PPPP1PPP/RNBQKBNR w KQkq c6 0 2")
            .unwrap();
    let board2 =
        BitBoardState::from_fen("rnbqkbnr/pp1ppppp/8/2p5/4P3/5N2/PPPP1PPP/RNBQKB1R b KQkq - 1 2")
            .unwrap();
    // c5 is on the fifth rank, where no en-passant target can be.
    let board3 =
        BitBoardState::from_fen("rnbqkbnr/pp1ppppp/8/2p5/4P3/5N2/PPPP1PPP/RNBQKB1R w Kq c5 4 11");
    assert_eq!(board3.unwrap_err(), FenError::InvalidPosition);
    assert_eq!(board1.en_passant, 42);
    assert_eq!(board1.half_moves, 0);
    assert_eq!(board1.active_color, Color::White);
    assert_eq!(board2.en_passant, 64);
    assert_eq!(board2.half_moves, 1);
    assert_eq!(board2.full_moves, 2);
    assert_eq!(board2.active_color, Color::Black);
}

#[test]
fn fen_fields_and_defaults() {
    let s = BitBoardState::from_fen("rnbqkbnr/pppppppp/8/8/8/8/PPPPPPPP/RNBQKBNR").unwrap();
    assert_eq!(s.active_color, Color::White);
    assert_eq!(s.castling, 0b111111);
    assert_eq!(s.en_passant, 64);
    assert_eq!(s.half_moves, 0);
    assert_eq!(s.full_moves, 1);
    assert_eq!(s.bitboard.get_piece(4), Some((Color::White, Piece::King)));
    assert_eq!(s.bitboard.get_piece(59), Some((Color::Black, Piece::Queen)));
    assert_eq!(s.bitboard.get_piece(35), None);
    let k = BitBoardState::from_fen("4k3/8/8/8/8/8/8/4K2R w K - 3 9").unwrap();
    assert_eq!(k.castling, 0b000110);
    assert_eq!(k.full_moves, 9);
}

#[test]
fn fen_errors() {
    assert_eq!(BitBoardState::from_fen("   ").unwrap_err(), FenError::MissingBoard);
    assert_eq!(BitBoardState::from_fen("rnbqkbnr/pppppppp/8/8/8/8/PPPPPPPP w").unwrap_err(), FenError::BadPlacement);
    assert_eq!(BitBoardState::from_fen("rnbqkbnr/pppppppp/9/8/8/8/PPPPPPPP/RNBQKBNR").unwrap_err(), FenError::BadPlacement);
    assert_eq!(BitBoardState::from_fen("rnbqkbnr/ppppxppp/8/8/8/8/PPPPPPPP/RNBQKBNR").unwrap_err(), FenError::BadPlacement);
    assert_eq!(BitBoardState::from_fen("4k3/8/8/8/8/8/8/4K3 x").unwrap_err(), FenError::BadSide);
    assert_eq!(BitBoardState::from_fen("4k3/8/8/8/8/8/8/4K3 w KX").unwrap_err(), FenError::BadCastling);
    assert_eq!(BitBoardState::from_fen("4k3/8/8/8/8/8/8/4K3 w - z9").unwrap_err(), FenError::BadEnPassant);
    assert_eq!(BitBoardState::from_fen("4k3/8/8/8/8/8/8/4K3 w - - x 1").unwrap_err(), FenError::BadCounter);
    assert_eq!(BitBoardState::from_fen("4k3/8/8/8/8/8/8/4K3 w - - 0 0").unwrap_err(), FenError::BadCounter);
    assert_eq!(BitBoardState::from_fen("8/8/8/8/8/8/8/4K3 w - - 0 1").unwrap_err(), FenError::InvalidPosition);
    assert_eq!(BitBoardState::from_fen("4k3/8/8/8/8/8/8/4K2P w - - 0 1").unwrap_err(), FenError::InvalidPosition);
    assert_eq!(BitBoardState::from_fen("4k3/8/8/8/8/8/8/4K3 w - e4 0 1").unwrap_err(), FenError::InvalidPosition);
    assert_eq!(BitBoardState::from_fen("4k3/8/8/8/8/8/8/4K3 w K - 0 1").unwrap_err(), FenError::InvalidPosition);
}

#[test]
fn mirror_is_its_own_inverse() {
    let s = BitBoardState::from_fen("r3k2r/p1ppqpb1/bn2pnp1/3PN3/1p2P3/2N2Q1p/PPPBBPPP/R3K2R w Kq - 5 7").unwrap();
    let mut m = s;
    m.mirror_board();
    assert_eq!(m.active_color, Color::Black);
    assert_eq!(m.castling, 0b110101);
    assert_eq!(m.bitboard.get_piece(60), Some((Color::Black, Piece::King)));
    assert_eq!(m.bitboard.get_piece(4), Some((Color::White, Piece::King)));
    assert_eq!(m.bitboard.get_piece(20), s.bitboard.get_piece(44).map(|(c, p)| (if c == Color::White { Color::Black } else { Color::White }, p)));
    m.mirror_board();
    assert_eq!(m.bitboard.0, s.bitboard.0);
    assert_eq!(m.castling, s.castling);
    assert_eq!(m.active_color, s.active_color);
}

#[test]
fn apply_move_rules() {
    let mut s = BitBoardState::from_fen(START).unwrap();
    s.apply_move(&BitBoardMove::new(12, 28, 1));
    assert_eq!(s.en_passant, 20);
    assert_eq!(s.active_color, Color::Black);
    assert_eq!(s.bitboard.get_piece(28), Some((Color::White, Piece::Pawn)));
    assert_eq!(s.bitboard.get_piece(12), None);
    assert_eq!(s.full_moves, 1);
    s.apply_move(&BitBoardMove::new(62, 45, 0));
    assert_eq!(s.full_moves, 2);
    assert_eq!(s.half_moves, 1);
    assert_eq!(s.en_passant, 64);
    assert_eq!(s.bitboard.get_piece(45), Some((Color::Black, Piece::Knight)));

    let mut c = BitBoardState::from_fen("r3k2r/8/8/8/8/8/8/R3K2R b KQkq - 0 1").unwrap();
    c.apply_move(&BitBoardMove::new(60, 58, 3));
    assert_eq!(c.bitboard.get_piece(58), Some((Color::Black, Piece::King)));
    assert_eq!(c.bitboard.get_piece(59), Some((Color::Black, Piece::Rook)));
    assert_eq!(c.bitboard.get_piece(56), None);
    assert_eq!(c.castling, 0b000111);

    let mut e = BitBoardState::from_fen("4k3/8/8/3pP3/8/8/8/4K3 w - d6 0 1").unwrap();
    e.apply_move(&BitBoardMove::new(36, 43, 5));
    assert_eq!(e.bitboard.get_piece(43), Some((Color::White, Piece::Pawn)));
    assert_eq!(e.bitboard.get_piece(35), None);
    assert_eq!(e.half_moves, 0);

    let mut p = BitBoardState::from_fen("4k3/1P6/8/8/8/8/8/4K3 w - - 7 1").unwrap();
    p.apply_move(&BitBoardMove::new(49, 57, 10));
    assert_eq!(p.bitboard.get_piece(57), Some((Color::White, Piece::Rook)));
    assert_eq!(p.half_moves, 0);
}

#[test]
fn change_side_counts() {
    let mut s = BitBoardState::from_fen("4k3/8/8/8/8/8/8/4K3 b - - 3 5").unwrap();
    s.change_side();
    assert_eq!(s.active_color, Color::White);
    assert_eq!(s.full_moves, 6);
    assert_eq!(s.half_moves, 4);
}

#[test]
fn mailbox_matches_bitboards() {
    let s = BitBoardState::from_fen(START).unwrap();
    let m = BoardMailbox::from_bitboard(&s.bitboard);
    assert_eq!(m.0[0], Some((Color::White, Piece::Rook)));
    assert_eq!(m.0[60], Some((Color::Black, Piece::King)));
    assert_eq!(m.0[30], None);
}

#[test]
fn bit_helpers() {
    let mut b: u64 = 0b1010_0000;
    assert_eq!(chess_engine::pop_lsb(&mut b), Some(5));
    assert_eq!(b, 0b1000_0000);
    assert_eq!(chess_engine::pop_lsb(&mut b), Some(7));
    assert_eq!(b, 0);
    assert_eq!(chess_engine::pop_lsb(&mut b), None);
    assert_eq!(chess_engine::is_empty(0), u64::MAX);
    assert_eq!(chess_engine::is_empty(1 << 63 | 1), 0);
}

#[test]
fn flip_board_swaps_sides() {
    let s = BitBoardState::from_fen(START).unwrap();
    let mut b = s.bitboard;
    b.flip_board();
    assert_eq!(b.0, s.bitboard.0);
    let k = BitBoardState::from_fen("4k3/8/8/8/8/8/8/R3K3 w - - 0 1").unwrap();
    let mut f = k.bitboard;
    f.flip_board();
    assert_eq!(f.get_piece(56), Some((Color::Black, Piece::Rook)));
    assert_eq!(f.get_piece(4), Some((Color::White, Piece::King)));
    assert_eq!(f.get_piece(60), Some((Color::Black, Piece::King)));
}

#[test]
fn mailbox_round_trip() {
    let s = BitBoardState::from_fen("r3k2r/p1ppqpb1/bn2pnp1/3PN3/1p2P3/2N2Q1p/PPPBBPPP/R3K2R w KQkq -").unwrap();
    let m = BoardMailbox::from_bitboard(&s.bitboard);
    let b = chess_engine::BitBoard::from_mailbox(&m);
    assert_eq!(b.0, s.bitboard.0);
}
