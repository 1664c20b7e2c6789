use chess_engine::{perft, BitBoardState};

#[test]
fn position_1() {
    let board =
        BitBoardState::from_fen("rnbqkbnr/pppppppp/8/8/8/8/PPPPPPPP/RNBQKBNR w KQkq - 0 1").unwrap();
    assert_eq!(perft(&board, 0), 1);
    assert_eq!(perft(&board, 1), 20);
    assert_eq!(perft(&board, 2), 400);
    assert_eq!(perft(&board, 3), 8_902);
    assert_eq!(perft(&board, 4), 197_281);
    assert_eq!(perft(&board, 5), 4_865_609);
}

#[test]
fn position_2() {
    let board =
        BitBoardState::from_fen("r3k2r/p1ppqpb1/bn2pnp1/3PN3/1p2P3/2N2Q1p/PPPBBPPP/R3K2R w KQkq -")
            .unwrap();
    assert_eq!(perft(&board, 1), 48);
    assert_eq!(perft(&board, 2), 2_039);
    assert_eq!(perft(&board, 3), 97_862);
}

#[test]
fn position_3() {
    let board = BitBoardState::from_fen("8/2p5/3p4/KP5r/1R3p1k/8/4P1P1/8 w - -").unwrap();
    assert_eq!(perft(&board, 1), 14);
    assert_eq!(perft(&board, 2), 191);
    assert_eq!(perft(&board, 3), 2_812);
    assert_eq!(perft(&board, 4), 43_238);
}

#[test]
fn position_4() {
    let board =
        BitBoardState::from_fen("r3k2r/Pppp1ppp/1b3nbN/nP6/BBP1P3/q4N2/Pp1P2PP/R2Q1RK1 w kq - 0 1")
            .unwrap();
    assert_eq!(perft(&board, 1), 6);
    assert_eq!(perft(&board, 2), 264);
    assert_eq!(perft(&board, 3), 9_467);
    assert_eq!(perft(&board, 4), 422_333);
}

#[test]
fn position_5() {
    let board =
        BitBoardState::from_fen("rnbq1k1r/pp1Pbppp/2p5/8/2B5/8/PPP1NnPP/RNBQK2R w KQ - 1 8").unwrap();
    assert_eq!(perft(&board, 1), 44);
    assert_eq!(perft(&board, 2), 1_486);
    assert_eq!(perft(&board, 3), 62_379);
    assert_eq!(perft(&board, 4), 2_103_487);
}

#[test]
fn position_6() {
    let board = BitBoardState::from_fen(
        "r4rk1/1pp1qppp/p1np1n2/2b1p1B1/2B1P1b1/P1NP1N2/1PP1QPPP/R4RK1 w - - 0 10",
    )
    .unwrap();
    assert_eq!(perft(&board, 1), 46);
    assert_eq!(perft(&board, 2), 2_079);
    assert_eq!(perft(&board, 3), 89_890);
    assert_eq!(perft(&board, 4), 3_894_594);
}

#[test]
fn test_blah() {
    let board =
        BitBoardState::from_fen("rnQqkbn1/8/8/pp1ppp2/PP1PPPpr/2P3Pp/7P/RNB1KBNR b KQq - 0 12")
            .unwrap();
    let n = perft(&board, 1);
    println!("{}", n);
    assert!(n > 0);
}
