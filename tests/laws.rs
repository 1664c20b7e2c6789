use chess_engine::search::side_in_check;
use chess_engine::{generate_moves, perft, BitBoardMove, BitBoardState, Color, Piece};

const KIWIPETE: &str = "r3k2r/p1ppqpb1/bn2pnp1/3PN3/1p2P3/2N2Q1p/PPPBBPPP/R3K2R w KQkq -";

fn mirrored(m: &BitBoardMove) -> BitBoardMove {
    BitBoardMove::new(m.get_from() ^ 56, m.get_to() ^ 56, m.get_flags())
}

#[test]
fn start_position_constructor() {
    let a = BitBoardState::new();
    let b = BitBoardState::from_fen("rnbqkbnr/pppppppp/8/8/8/8/PPPPPPPP/RNBQKBNR w KQkq - 0 1").unwrap();
    assert_eq!(a.bitboard.0, b.bitboard.0);
    assert_eq!(a.castling, b.castling);
    assert_eq!(a.en_passant, b.en_passant);
    assert_eq!(perft(&BitBoardState::default(), 3), 8_902);
}

#[test]
fn mirror_symmetry_of_legal_moves() {
    for fen in [KIWIPETE, "8/2p5/3p4/KP5r/1R3p1k/8/4P1P1/8 w - -", "rnbq1k1r/pp1Pbppp/2p5/8/2B5/8/PPP1NnPP/RNBQK2R w KQ - 1 8"] {
        let p = BitBoardState::from_fen(fen).unwrap();
        let mut q = p;
        q.mirror_board();
        let mut ours: Vec<u16> = generate_moves(&p).iter().map(|m| mirrored(m).0).collect();
        let mut theirs: Vec<u16> = generate_moves(&q).iter().map(|m| m.0).collect();
        ours.sort();
        theirs.sort();
        assert_eq!(ours, theirs);
    }
}

#[test]
fn no_move_leaves_own_king_attacked() {
    let p = BitBoardState::from_fen(KIWIPETE).unwrap();
    for m in generate_moves(&p) {
        let mut child = p;
        child.apply_move(&m);
        assert_eq!(child.active_color, Color::Black);
        child.active_color = Color::White;
        assert!(!side_in_check(&child));
    }
}

#[test]
fn double_check_allows_only_king_moves() {
    // The rook on e8 and the knight on d3 both give check.
    let p = BitBoardState::from_fen("4r2k/8/8/8/8/3n4/8/4K3 w - - 0 1").unwrap();
    let moves = generate_moves(&p);
    assert!(!moves.is_empty());
    for m in moves {
        assert_eq!(p.bitboard.get_piece(m.get_from() as usize), Some((Color::White, Piece::King)));
    }
    let blocked = BitBoardState::from_fen("4r2k/8/8/8/8/3n4/3R4/4K3 w - - 0 1").unwrap();
    for m in generate_moves(&blocked) {
        assert_eq!(blocked.bitboard.get_piece(m.get_from() as usize), Some((Color::White, Piece::King)));
    }
}

#[test]
fn en_passant_that_exposes_the_king_is_not_generated() {
    // After bxc6 the fifth rank would open between the rook and the king.
    let p = BitBoardState::from_fen("8/8/8/KPp4r/8/8/8/7k w - c6 0 2").unwrap();
    let moves = generate_moves(&p);
    assert!(!moves.contains(&BitBoardMove::new(33, 42, 5)));
    // With the rook gone the same capture is legal.
    let q = BitBoardState::from_fen("8/8/8/KPp5/8/8/8/7k w - c6 0 2").unwrap();
    assert!(generate_moves(&q).contains(&BitBoardMove::new(33, 42, 5)));
    // The capture that removes a checking pawn is legal.
    let r = BitBoardState::from_fen("8/8/8/2pP4/1K6/8/8/7k w - c6 0 2").unwrap();
    assert!(generate_moves(&r).contains(&BitBoardMove::new(35, 42, 5)));
}

#[test]
fn legal_moves_keep_the_invariants() {
    let p = BitBoardState::from_fen("r3k2r/Pppp1ppp/1b3nbN/nP6/BBP1P3/q4N2/Pp1P2PP/R2Q1RK1 w kq - 0 1").unwrap();
    for m in generate_moves(&p) {
        let mut child = p;
        child.apply_move(&m);
        let kings: usize = (0..64)
            .filter(|&i| matches!(child.bitboard.get_piece(i), Some((_, Piece::King))))
            .count();
        assert_eq!(kings, 2);
        for i in (0..8).chain(56..64) {
            assert!(!matches!(child.bitboard.get_piece(i), Some((_, Piece::Pawn))));
        }
        assert!(child.en_passant == 64 || child.en_passant / 8 == 2 || child.en_passant / 8 == 5);
        assert!(child.is_valid());
    }
}

#[test]
fn test_bishop() {
    // A lone bishop on c1 sweeps both diagonals up to the first piece.
    let p = BitBoardState::from_fen("4k3/8/8/8/8/4p3/8/2B1K3 w - - 0 1").unwrap();
    let targets: Vec<u16> = generate_moves(&p)
        .iter()
        .filter(|m| m.get_from() == 2)
        .map(|m| m.get_to())
        .collect();
    let mut sorted = targets.clone();
    sorted.sort();
    assert_eq!(sorted, vec![9, 11, 16, 20]);
}
