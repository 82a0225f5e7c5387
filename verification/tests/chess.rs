use std::collections::{HashMap, HashSet};

use chessing::chess::rights::{extract_castling_rights, CastlingRights};
use chessing::chess::{Chess, ChessProcessor};
use chessing::bitboard::BitBoard;
use chessing::game::action::{make_chess_move};
use chessing::chess::pieces::leapers::king::make_castling_move;
use chessing::chess::pieces::pawn::{make_en_passant_move, make_promotion_move};
use chessing::game::zobrist::get_index;
use chessing::game::action::{Action, ActionRecord};
use chessing::game::load::LoadError;
use chessing::game::zobrist::ZobristTable;
use chessing::game::{Board, GameState, Team};

const TEST_POSITIONS: [&str; 32] = [
    "rnbqkbnr/pppppppp/8/8/8/8/PPPPPPPP/RNBQKBNR w KQkq - 0 1",
    "rnbqkbnr/pppppppp/8/8/4P3/8/PPPP1PPP/RNBQKBNR b KQkq e3 0 1",
    "rnbqkbnr/pp1ppppp/8/2p5/4P3/8/PPPP1PPP/RNBQKBNR w KQkq c6 0 1",
    "rnbqkbnr/pp1ppppp/8/2p5/4P3/5N2/PPPP1PPP/RNBQKB1R b KQkq - 0 1",
    "r3k2r/p1ppqpb1/bn2pnp1/3PN3/1p2P3/2N2Q1p/PPPBBPPP/R3K2R w KQkq - 0 1",
    "r3k2r/p1ppqpb1/bn2pnp1/3PN3/1p2P3/2N2Q1p/PPPBBPPP/R3K2R b KQkq - 0 1",
    "r3k2r/p1ppqpb1/bn2pnp1/3PN3/1p2P3/2N2Q1p/PPPBBPPP/R3K2R w Kq - 0 1",
    "r3k2r/p1ppqpb1/bn2pnp1/3PN3/1p2P3/2N2Q1p/PPPBBPPP/R3K2R w Qk - 0 1",
    "r3k2r/p1ppqpb1/bn2pnp1/3PN3/1p2P3/2N2Q1p/PPPBBPPP/R3K2R w - - 0 1",
    "8/2p5/3p4/KP5r/1R3p1k/8/4P1P1/8 w - - 0 1",
    "8/2p5/3p4/KP5r/1R3p1k/8/4P1P1/8 b - - 0 1",
    "8/2p5/3p4/KP5r/1R2Pp1k/8/6P1/8 b - e3 0 1",
    "r3k2r/Pppp1ppp/1b3nbN/nP6/BBP1P3/q4N2/Pp1P2PP/R2Q1RK1 w kq - 0 1",
    "r2q1rk1/pP1p2pp/Q4n2/bbp1p3/Np6/1B3NBn/pPPP1PPP/R3K2R b KQ - 0 1",
    "rnbq1k1r/pp1Pbppp/2p5/8/2B5/8/PPP1NnPP/RNBQK2R w KQ - 0 1",
    "r4rk1/1pp1qppp/p1np1n2/2b1p1B1/2B1P1b1/P1NP1N2/1PP1QPPP/R4RK1 w - - 0 1",
    "rnb1kbnr/pppp1ppp/8/4p3/6Pq/5P2/PPPPP2P/RNBQKBNR w KQkq - 0 1",
    "7k/5Q2/6K1/8/8/8/8/8 b - - 0 1",
    "rnbqkbnr/ppp1pppp/8/1B1p4/4P3/8/PPPP1PPP/RNBQK1NR b KQkq - 0 1",
    "4k3/8/8/8/8/8/8/4K2R w K - 0 1",
    "4k3/8/8/8/8/8/8/R3K3 w Q - 0 1",
    "4k2r/8/8/8/8/8/8/4K3 w k - 0 1",
    "r3k3/8/8/8/8/8/8/4K3 w q - 0 1",
    "4k3/8/8/8/8/8/8/R3K2R w KQ - 0 1",
    "r3k2r/8/8/8/8/8/8/4K3 w kq - 0 1",
    "8/8/8/8/8/8/6k1/4K2R w K - 0 1",
    "8/Pk6/8/8/8/8/6Kp/8 w - - 0 1",
    "8/Pk6/8/8/8/8/6Kp/8 b - - 0 1",
    "n1n5/PPPk4/8/8/8/8/4Kppp/5N1N w - - 0 1",
    "n1n5/PPPk4/8/8/8/8/4Kppp/5N1N b - - 0 1",
    "8/8/1k6/2b5/2pP4/8/5K2/8 b - d3 0 1",
    "8/8/1k6/8/2pP4/8/5K2/8 b - d3 0 1",
];

fn first_four_fields(text: &str) -> String {
    let fields: Vec<&str> = text.split(' ').collect();
    fields[..4].join(" ")
}

#[test]
fn chess_zobrist() {
    let chess = Chess::create(64).expect("magic constants are found");
    let mut board = chess.default().expect("the start position loads");

    let table = ChessProcessor.gen_zobrist(&board, 64);
    let mut hashes = HashMap::new();

    let mut collisions = 0;

    for position in TEST_POSITIONS {
        board = chess.load(position).expect("the position loads");
        let hash = ChessProcessor.hash(&board, &table);

        if hashes.contains_key(&hash) {
            println!("COLLISION! {}", hash);
            println!("- {}", position);
            println!("- {}", hashes.get(&hash).expect("Value found"));
            collisions += 1;
        } else {
            hashes.insert(hash, position);
        }
    }

    println!("{} collisions ({} positions)", collisions, hashes.len());
    assert_eq!(collisions, 0);
    assert_eq!(hashes.len(), TEST_POSITIONS.len());
}

#[test]
fn chess_fens() {
    let chess = Chess::create(64).expect("magic constants are found");

    let mut positions = HashSet::<String>::new();
    let mut collisions = 0;

    for position in TEST_POSITIONS {
        let board = chess.load(position).expect("the position loads");
        let out = ChessProcessor.save(&board);

        if positions.contains(&out) {
            collisions += 1;
        }

        positions.insert(out);
    }

    println!("{} collisions", collisions);
    assert_eq!(collisions, 0);
}

#[test]
fn fen_round_trip_reproduces_the_first_four_fields() {
    let chess = Chess::create(64).expect("magic constants are found");
    for position in TEST_POSITIONS {
        let board = chess.load(position).expect("the position loads");
        let out = ChessProcessor.save(&board);
        assert_eq!(first_four_fields(&out), first_four_fields(position));
        assert!(out.ends_with(" 0 1"));
    }
}

#[test]
fn save_writes_the_start_position_exactly() {
    let chess = Chess::create(1).expect("magic constants are found");
    let board = chess.default().expect("the start position loads");
    assert_eq!(
        ChessProcessor.save(&board),
        "rnbqkbnr/pppppppp/8/8/8/8/PPPPPPPP/RNBQKBNR w KQkq - 0 1"
    );
}

#[test]
fn hash_is_stable_and_follows_the_position() {
    let chess = Chess::create(5).expect("magic constants are found");
    let mut board = chess.default().expect("the start position loads");
    let table = ChessProcessor.gen_zobrist(&board, 11);
    assert_eq!(table.table.len(), 915);
    let again = ChessProcessor.gen_zobrist(&board, 11);
    assert_eq!(table.table, again.table);

    let start = ChessProcessor.hash(&board, &table);
    assert_eq!(start, ChessProcessor.hash(&board, &table));
    let other = chess.default().expect("the start position loads");
    assert_eq!(start, ChessProcessor.hash(&other, &table));

    let legals = board.legals();
    let prior = board.play(legals[0]);
    assert_ne!(start, ChessProcessor.hash(&board, &table));
    board.restore(prior);
    assert_eq!(start, ChessProcessor.hash(&board, &table));
}

fn collect(board: &mut Board, depth: usize, seen: &mut HashMap<u64, String>, table: &ZobristTable) -> usize {
    let hash = ChessProcessor.hash(board, table);
    let text = first_four_fields(&ChessProcessor.save(board));
    let mut collisions = 0;
    match seen.get(&hash) {
        Some(known) => {
            if *known != text {
                collisions += 1;
            }
        }
        None => {
            seen.insert(hash, text);
        }
    }
    if depth == 0 {
        return collisions;
    }
    for action in board.legals() {
        let prior = board.play(action);
        collisions += collect(board, depth - 1, seen, table);
        board.restore(prior);
    }
    collisions
}

#[test]
fn hashes_of_the_positions_of_four_plies_do_not_collide() {
    let chess = Chess::create(64).expect("magic constants are found");
    let mut board = chess.default().expect("the start position loads");
    let table = ChessProcessor.gen_zobrist(&board, 64);
    let mut seen = HashMap::new();
    assert_eq!(collect(&mut board, 4, &mut seen, &table), 0);
    assert!(seen.len() > 70000);
}

#[test]
fn play_and_restore_leave_the_board_as_it_was() {
    let chess = Chess::create(3).expect("magic constants are found");
    for position in TEST_POSITIONS {
        let mut board = chess.load(position).expect("the position loads");
        let before = board.state;
        let history = board.history.clone();
        for action in board.actions() {
            let prior = board.play(action);
            assert_eq!(board.history.len(), history.len() + 1);
            assert_eq!(board.history[history.len()], ActionRecord::Action(action));
            assert_ne!(board.state.moving_team, before.moving_team);
            // The teams stay disjoint and cover the pieces of all kinds.
            assert_eq!(board.state.white.0 & board.state.black.0, 0);
            let mut all = 0u64;
            for kind in 0..6 {
                all |= board.state.pieces[kind].0;
            }
            assert_eq!(all, board.state.white.0 | board.state.black.0);
            board.restore(prior);
            assert_eq!(board.state.pieces, before.pieces);
            assert_eq!(board.state.white, before.white);
            assert_eq!(board.state.black, before.black);
            assert_eq!(board.state.first_move, before.first_move);
            assert_eq!(board.state.mailbox, before.mailbox);
            assert_eq!(board.state.moving_team, before.moving_team);
            assert_eq!(board.history, history);
        }
    }
}

#[test]
fn game_state_tells_mate_stalemate_and_play() {
    let chess = Chess::create(9).expect("magic constants are found");

    let mut mated = chess
        .load("rnb1kbnr/pppp1ppp/8/4p3/6Pq/5P2/PPPPP2P/RNBQKBNR w KQkq - 1 3")
        .expect("the position loads");
    let legals = mated.legals();
    assert_eq!(legals.len(), 0);
    assert_eq!(mated.game_state(&legals), GameState::Win(Team::Black));

    let mut stale = chess.load("7k/5Q2/6K1/8/8/8/8/8 b - - 0 1").expect("the position loads");
    let legals = stale.legals();
    assert_eq!(legals.len(), 0);
    assert_eq!(stale.game_state(&legals), GameState::Draw);

    let mut start = chess.default().expect("the start position loads");
    let legals = start.legals();
    assert_eq!(legals.len(), 20);
    assert_eq!(start.game_state(&legals), GameState::Ongoing);

    let mut checked = chess
        .load("rnbqkbnr/ppp1pppp/8/1B1p4/4P3/8/PPPP1PPP/RNBQK1NR b KQkq - 1 2")
        .expect("the position loads");
    let legals = checked.legals();
    assert_eq!(legals.len(), 5);
    assert_eq!(checked.game_state(&legals), GameState::Ongoing);
}

#[test]
fn play_null_passes_the_move() {
    let chess = Chess::create(9).expect("magic constants are found");
    let mut board = chess.default().expect("the start position loads");
    let prior = board.play_null();
    assert_eq!(prior.moving_team, Team::White);
    assert_eq!(board.state.moving_team, Team::Black);
    assert_eq!(board.history, vec![ActionRecord::Null()]);
    assert_eq!(board.state.pieces, prior.pieces);
    board.restore(prior);
    assert_eq!(board.state.moving_team, Team::White);
    assert!(board.history.is_empty());
}

#[test]
fn load_turns_down_bad_texts() {
    let chess = Chess::create(9).expect("magic constants are found");
    assert_eq!(chess.load("8/8/8/8/8/8/8/8 w -").err(), Some(LoadError::MissingField));
    assert_eq!(
        chess.load("rnbqkbnrr/8/8/8/8/8/8/8 w - - 0 1").err(),
        Some(LoadError::OffBoard)
    );
    assert_eq!(
        chess.load("8/8/8/8/8/8/8/8/k7 w - - 0 1").err(),
        Some(LoadError::OffBoard)
    );
    assert_eq!(chess.load("8/8/8/8/8/8/8/8 w - e1 0 1").err(), Some(LoadError::BadEnPassant));
    let mut board = chess.default().expect("the start position loads");
    let before = board.state;
    assert_eq!(
        board.load("rnbqkbnr/pppppppp/8/8/8/8/PPPPPPPP/RNBQKBNR w KQkq - 0 1"),
        Err(LoadError::Occupied)
    );
    assert_eq!(board.state.pieces, before.pieces);
    assert_eq!(board.state.mailbox, before.mailbox);
}

#[test]
fn castling_moves_king_and_rook() {
    let chess = Chess::create(9).expect("magic constants are found");
    let mut board = chess.load("r3k2r/8/8/8/8/8/8/R3K2R w KQkq - 0 1").expect("the position loads");
    let castles: Vec<Action> = board
        .legals()
        .into_iter()
        .filter(|a| a.piece == 5 && a.info == 1)
        .collect();
    assert_eq!(
        castles,
        vec![
            Action { from: 4, to: 0, info: 1, piece: 5 },
            Action { from: 4, to: 7, info: 1, piece: 5 },
        ]
    );
    board.play(castles[1]);
    assert_eq!(
        ChessProcessor.save(&board),
        "r3k2r/8/8/8/8/8/8/R4RK1 b kq - 0 1"
    );
    let mut board = chess.load("r3k2r/8/8/8/8/8/8/R3K2R w KQkq - 0 1").expect("the position loads");
    board.play(castles[0]);
    assert_eq!(
        ChessProcessor.save(&board),
        "r3k2r/8/8/8/8/8/8/2KR3R b kq - 0 1"
    );
}

#[test]
fn en_passant_takes_the_pawn_behind_the_target() {
    let chess = Chess::create(9).expect("magic constants are found");
    let mut board = chess
        .load("rnbqkbnr/ppp1pppp/8/8/3pP3/8/PPPP1PPP/RNBQKBNR b KQkq e3 0 1")
        .expect("the position loads");
    let captures: Vec<Action> = board
        .legals()
        .into_iter()
        .filter(|a| a.piece == 0 && a.info == 1)
        .collect();
    assert_eq!(captures, vec![Action { from: 27, to: 20, info: 1, piece: 0 }]);
    board.play(captures[0]);
    assert_eq!(
        ChessProcessor.save(&board),
        "rnbqkbnr/ppp1pppp/8/8/8/4p3/PPPP1PPP/RNBQKBNR w KQkq - 0 1"
    );
}

#[test]
fn promotion_lists_four_kinds() {
    let chess = Chess::create(9).expect("magic constants are found");
    let mut board = chess.load("8/Pk6/8/8/8/8/6Kp/8 w - - 0 1").expect("the position loads");
    let promotions: Vec<Action> = board
        .legals()
        .into_iter()
        .filter(|a| a.piece == 0)
        .collect();
    assert_eq!(
        promotions,
        vec![
            Action { from: 48, to: 56, info: 3, piece: 0 },
            Action { from: 48, to: 56, info: 4, piece: 0 },
            Action { from: 48, to: 56, info: 5, piece: 0 },
            Action { from: 48, to: 56, info: 6, piece: 0 },
        ]
    );
    board.play(promotions[3]);
    assert_eq!(ChessProcessor.save(&board), "Q7/1k6/8/8/8/8/6Kp/8 b - - 0 1");
}

#[test]
fn features_are_numbered_by_team_kind_and_square() {
    let chess = Chess::create(9).expect("magic constants are found");
    let board = chess.default().expect("the start position loads");
    assert_eq!(get_index(&board, Team::White, 0, 0), 0);
    assert_eq!(get_index(&board, Team::White, 5, 4), 324);
    assert_eq!(get_index(&board, Team::Black, 3, 10), 586);
    assert_eq!(get_index(&board, Team::Black, 5, 63), 767);
}

#[test]
fn the_hash_is_the_xor_of_the_features() {
    let chess = Chess::create(9).expect("magic constants are found");
    let board = chess.load("4k3/8/8/8/8/8/8/4K3 w - - 0 1").expect("the position loads");
    let table = ChessProcessor.gen_zobrist(&board, 5);
    let t = &table.table;
    assert!(t.iter().all(|&n| n < u64::MAX));
    assert!(t.iter().any(|&n| n != t[0]));
    // The white king on e1, the black king on e8, white to move, no right
    // to castle, no double step.
    assert_eq!(ChessProcessor.hash(&board, &table), t[324] ^ t[764] ^ t[768] ^ t[770] ^ t[914]);
    assert_eq!(table.compute(&[324, 764, 768, 770, 914]), t[324] ^ t[764] ^ t[768] ^ t[770] ^ t[914]);
    assert_eq!(table.compute(&[]), 0);
    assert_eq!(table.compute(&[7, 7]), 0);

    let board = chess.load("4k3/8/8/8/8/8/8/4K3 b - - 0 1").expect("the position loads");
    assert_eq!(ChessProcessor.hash(&board, &table), t[324] ^ t[764] ^ t[769] ^ t[770] ^ t[914]);

    // Black to move after the white pawn went from e2 to e4: the square e4
    // counts with the squares of the team to move, which is black.
    let board = chess.load("4k3/8/8/8/4P3/8/8/4K3 b - e3 0 1").expect("the position loads");
    assert_eq!(
        ChessProcessor.hash(&board, &table),
        t[28] ^ t[324] ^ t[764] ^ t[769] ^ t[770] ^ t[786 + 64 + 28]
    );

    // All four rights to castle.
    let board = chess.load("r3k2r/8/8/8/8/8/8/R3K2R w KQkq - 0 1").expect("the position loads");
    assert_eq!(
        ChessProcessor.hash(&board, &table),
        t[3 * 64] ^ t[3 * 64 + 7] ^ t[324] ^ t[(6 + 3) * 64 + 56] ^ t[(6 + 3) * 64 + 63] ^ t[764]
            ^ t[768] ^ t[770 + 15] ^ t[914]
    );
}

#[test]
fn rights_to_castle_follow_the_pieces_that_have_not_moved() {
    let all = CastlingRights {
        white_king_side: true,
        white_queen_side: true,
        black_king_side: true,
        black_queen_side: true,
    };
    assert_eq!(all.index(), 15);
    let some = CastlingRights {
        white_king_side: true,
        white_queen_side: false,
        black_king_side: false,
        black_queen_side: true,
    };
    assert_eq!(some.index(), 9);
    let none = CastlingRights {
        white_king_side: false,
        white_queen_side: false,
        black_king_side: false,
        black_queen_side: false,
    };
    assert_eq!(none.index(), 0);
    assert_eq!(
        CastlingRights { white_queen_side: true, ..none }.index(),
        4
    );
    assert_eq!(
        CastlingRights { black_king_side: true, ..none }.index(),
        2
    );

    let chess = Chess::create(9).expect("magic constants are found");
    let mut board = chess.load("r3k2r/8/8/8/8/8/8/R3K2R w KQkq - 0 1").expect("the position loads");
    assert_eq!(extract_castling_rights(&board), all);
    // The white rook on h1 moves: white's king side is gone.
    let rook = board.find_action("h1h2").expect("the move is known");
    board.play(rook);
    assert_eq!(
        extract_castling_rights(&board),
        CastlingRights { white_king_side: false, ..all }
    );
    // The black king moves: both of black's rights are gone.
    let king = board.find_action("e8e7").expect("the move is known");
    board.play(king);
    assert_eq!(
        extract_castling_rights(&board),
        CastlingRights {
            white_king_side: false,
            white_queen_side: true,
            black_king_side: false,
            black_queen_side: false,
        }
    );
    assert_eq!(ChessProcessor.save(&board), "r6r/4k3/8/8/8/8/7R/R3K3 w Q - 0 1");
    let board = chess.load("r3k2r/8/8/8/8/8/8/R3K2R w Kq - 0 1").expect("the position loads");
    assert_eq!(extract_castling_rights(&board), some);
}

#[test]
fn moves_are_applied_to_the_position() {
    let chess = Chess::create(9).expect("magic constants are found");
    // An ordinary capture: the white knight on f3 takes the pawn on e5.
    let mut board = chess
        .load("rnbqkbnr/pppp1ppp/8/4p3/8/5N2/PPPPPPPP/RNBQKB1R w KQkq - 0 1")
        .expect("the position loads");
    make_chess_move(&mut board.state, Action::from(21, 36, 1));
    assert_eq!(
        board.state.pieces[1].and(board.state.white),
        BitBoard((1 << 1) | (1 << 36))
    );
    assert_eq!(
        board.state.pieces[1].and(board.state.black),
        BitBoard((1 << 57) | (1 << 62))
    );
    assert_eq!(board.state.pieces[0].0 & (1 << 36), 0);
    assert_eq!(board.state.black.0 & (1 << 36), 0);
    assert_eq!(board.state.white.0 & ((1 << 36) | (1 << 21)), 1 << 36);
    assert_eq!(board.state.mailbox[36], 1);
    assert_eq!(board.state.mailbox[21], 255);
    assert_eq!(board.state.first_move.0 & ((1 << 36) | (1 << 21)), 0);
    assert_eq!(board.state.moving_team, Team::White);

    // Castling on the queen's side for black.
    let mut board = chess.load("r3k2r/8/8/8/8/8/8/R3K2R b KQkq - 0 1").expect("the position loads");
    make_castling_move(&mut board.state, Action::from(60, 56, 5).with_info(1));
    assert_eq!(board.state.pieces[5].0 & 0xff00_0000_0000_0000, 1 << 58);
    assert_eq!(board.state.pieces[3].0 & 0xff00_0000_0000_0000, (1 << 59) | (1 << 63));
    assert_eq!(board.state.mailbox[58], 5);
    assert_eq!(board.state.mailbox[59], 3);
    assert_eq!(board.state.mailbox[60], 255);
    assert_eq!(board.state.mailbox[56], 255);

    // En passant by white: the pawn on e5 takes the pawn on d5 on d6.
    let mut board = chess
        .load("4k3/8/8/3pP3/8/8/8/4K3 w - d6 0 1")
        .expect("the position loads");
    make_en_passant_move(&mut board.state, Action::from(36, 43, 0).with_info(1));
    assert_eq!(board.state.pieces[0], BitBoard(1 << 43));
    assert_eq!(board.state.black, BitBoard(1 << 60));
    assert_eq!(board.state.mailbox[35], 255);
    assert_eq!(board.state.mailbox[43], 0);

    // A promotion with a capture: the pawn on b7 takes the rook on a8 and
    // turns into a knight.
    let mut board = chess
        .load("r3k3/1P6/8/8/8/8/8/4K3 w - - 0 1")
        .expect("the position loads");
    make_promotion_move(&mut board.state, Action::from(49, 56, 0).with_info(3));
    assert_eq!(board.state.pieces[0], BitBoard::empty());
    assert_eq!(board.state.pieces[1], BitBoard(1 << 56));
    assert_eq!(board.state.pieces[3], BitBoard::empty());
    assert_eq!(board.state.black, BitBoard(1 << 60));
    assert_eq!(board.state.white, BitBoard((1 << 56) | (1 << 4)));
    assert_eq!(board.state.mailbox[56], 1);
    assert_eq!(board.state.mailbox[49], 255);
}

#[test]
fn attacks_tell_what_the_team_to_move_reaches() {
    let chess = Chess::create(9).expect("magic constants are found");
    let board = chess.load("4k3/8/8/8/8/8/4P3/R3K3 w - - 0 1").expect("the position loads");
    // The pawn attacks d3 and f3, whatever the mask.
    assert_eq!(board.attacks(BitBoard::empty()), BitBoard((1 << 19) | (1 << 21)));
    // The rook reaches a8; the mask comes back with the pawn's squares.
    assert_eq!(
        board.attacks(BitBoard::index(56)),
        BitBoard((1 << 19) | (1 << 21) | (1 << 56))
    );
    // Nothing reaches h8.
    assert_eq!(board.attacks(BitBoard::index(63)), BitBoard((1 << 19) | (1 << 21)));
    // The king reaches d1, the rook does too.
    assert_eq!(board.attacks(BitBoard::index(3)), BitBoard((1 << 19) | (1 << 21) | (1 << 3)));
    assert!(ChessProcessor.is_legal(&board));
    let checked = chess.load("4k3/8/8/8/8/8/8/4K2r b - - 0 1").expect("the position loads");
    // It is black's move, and black attacks the white king: the move that
    // led here was not legal.
    assert!(!ChessProcessor.is_legal(&checked));
}
