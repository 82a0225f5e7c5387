use chessing::chess::Chess;

#[test]
fn perft_start_depths_one_to_three() {
    let chess = Chess::create(64).expect("magic constants are found");
    let mut board = chess.default().expect("the start position loads");
    assert_eq!(board.perft(1), 20);
    assert_eq!(board.perft(2), 400);
    assert_eq!(board.perft(3), 8902);
}

#[test]
fn perft_start_depths_four_and_five() {
    let chess = Chess::create(64).expect("magic constants are found");
    let mut board = chess.default().expect("the start position loads");
    assert_eq!(board.perft(0), 1);
    assert_eq!(board.perft(4), 197281);
    assert_eq!(board.perft(5), 4865609);
    // Counting leaves the board as it was.
    assert!(board.history.is_empty());
    assert_eq!(board.perft(1), 20);
}

#[test]
fn perft_castling_and_checks() {
    let chess = Chess::create(7).expect("magic constants are found");
    let mut board = chess
        .load("r3k2r/Pppp1ppp/1b3nbN/nP6/BBP1P3/q4N2/Pp1P2PP/R2Q1RK1 w kq - 0 1")
        .expect("the position loads");
    assert_eq!(board.perft(1), 6);
    assert_eq!(board.perft(2), 264);
    assert_eq!(board.perft(3), 9467);
    assert_eq!(board.perft(4), 422333);
    let mut board = chess
        .load("r4rk1/1pp1qppp/p1np1n2/2b1p1B1/2B1P1b1/P1NP1N2/1PP1QPPP/R4RK1 w - - 0 10")
        .expect("the position loads");
    assert_eq!(board.perft(1), 46);
    assert_eq!(board.perft(2), 2079);
    assert_eq!(board.perft(3), 89890);
    let mut board = chess
        .load("r3k2r/p1ppqpb1/bn2pnp1/3PN3/1p2P3/2N2Q1p/PPPBBPPP/R3K2R w KQkq - 0 1")
        .expect("the position loads");
    assert_eq!(board.perft(4), 4085603);
}

#[test]
fn perft_kiwipete() {
    let chess = Chess::create(7).expect("magic constants are found");
    let mut board = chess
        .load("r3k2r/p1ppqpb1/bn2pnp1/3PN3/1p2P3/2N2Q1p/PPPBBPPP/R3K2R w KQkq - 0 1")
        .expect("the position loads");
    assert_eq!(board.perft(1), 48);
    assert_eq!(board.perft(2), 2039);
    assert_eq!(board.perft(3), 97862);
}

#[test]
fn perft_en_passant_and_promotion() {
    let chess = Chess::create(7).expect("magic constants are found");
    let mut board = chess
        .load("8/2p5/3p4/KP5r/1R3p1k/8/4P1P1/8 w - - 0 1")
        .expect("the position loads");
    assert_eq!(board.perft(1), 14);
    assert_eq!(board.perft(2), 191);
    assert_eq!(board.perft(3), 2812);
    assert_eq!(board.perft(4), 43238);
    let mut board = chess
        .load("rnbq1k1r/pp1Pbppp/2p5/8/2B5/8/PPP1NnPP/RNBQK2R w KQ - 1 8")
        .expect("the position loads");
    assert_eq!(board.perft(1), 44);
    assert_eq!(board.perft(2), 1486);
    assert_eq!(board.perft(3), 62379);
}
