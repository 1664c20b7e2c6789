use chess_engine::{best_move, evaluate_bitboard, generate_moves, piece_value, BitBoardMove, BitBoardState, Color, Piece, Rng, SearchDriver};

#[test]
fn test_best_move() {
    let board =
        BitBoardState::from_fen("rnbqkbnr/pppppppp/8/8/4P3/8/PPPP1PPP/RNBQKBNR b KQkq - 0 1").unwrap();
    let b = best_move(&board, 0);
    println!("{:?}", b);
    assert!(generate_moves(&board).contains(&b.unwrap()));
}

#[test]
fn mate_in_one_is_found() {
    let board = BitBoardState::from_fen("6k1/5ppp/8/8/8/8/8/R5K1 w - - 0 1").unwrap();
    let m = best_move(&board, 2).unwrap();
    assert_eq!(m.to_long_algebraic().unwrap(), "a1a8");
}

#[test]
fn stalemate_has_no_move() {
    let board = BitBoardState::from_fen("7k/5Q2/6K1/8/8/8/8/8 b - - 0 1").unwrap();
    assert_eq!(generate_moves(&board).len(), 0);
    assert_eq!(best_move(&board, 2), None);
    let mut d = SearchDriver::new();
    assert_eq!(d.alpha_beta_max(&board, -1000, 1000, 1), 0);
}

#[test]
fn checkmate_scores_as_mate() {
    let board = BitBoardState::from_fen("R5k1/5ppp/8/8/8/8/8/6K1 b - - 1 1").unwrap();
    assert_eq!(generate_moves(&board).len(), 0);
    let mut d = SearchDriver::new();
    assert_eq!(d.alpha_beta_max(&board, -10, 10, 3), -1_000_000_000);
    assert_eq!(best_move(&board, 1), None);
}

#[test]
fn start_position_depth_one() {
    let board = BitBoardState::from_fen("rnbqkbnr/pppppppp/8/8/8/8/PPPPPPPP/RNBQKBNR w KQkq - 0 1").unwrap();
    let m = best_move(&board, 1).unwrap();
    assert!(generate_moves(&board).contains(&m));
}

#[test]
fn evaluation_formula() {
    let board = BitBoardState::from_fen("rnbqkbnr/pppppppp/8/8/8/8/PPPPPPPP/RNBQKBNR w KQkq - 0 1").unwrap();
    assert_eq!(evaluate_bitboard(&board, Color::White), 0);
    let up = BitBoardState::from_fen("4k3/8/8/8/8/8/8/3QK3 w - - 0 1").unwrap();
    let white_moves = generate_moves(&up).len() as i64;
    let mut b = up;
    b.active_color = Color::Black;
    let black_moves = generate_moves(&b).len() as i64;
    assert_eq!(evaluate_bitboard(&up, Color::White), 900 + 10 * (white_moves - black_moves));
    assert_eq!(evaluate_bitboard(&up, Color::Black), -900 - 10 * (white_moves - black_moves));
    assert_eq!(piece_value(Piece::Pawn), 100);
    assert_eq!(piece_value(Piece::Knight), 300);
    assert_eq!(piece_value(Piece::Bishop), 300);
    assert_eq!(piece_value(Piece::Rook), 500);
    assert_eq!(piece_value(Piece::Queen), 900);
    assert_eq!(piece_value(Piece::King), 0);
}

#[test]
fn rng_is_deterministic() {
    let mut a = Rng::new(42);
    let b = Rng::new(42);
    let (x, next) = b.const_rand_u64();
    assert_eq!(a.rand_u64(), x);
    assert_eq!(a.s, next.s);
    let mut c = Rng::new(43);
    assert_ne!(c.rand_u64(), x);
    let _ = Rng::unix_seed();
    let m = BitBoardMove::new(1, 2, 0);
    assert_eq!(m.get_to(), 2);
}
