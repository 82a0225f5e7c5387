use chessing::chess::Chess;
use chessing::game::action::{index_to_square, square_to_index, Action};
use chessing::game::suite::parse_suite;
use chessing::game::{Team, GameState};

#[test]
fn squares_have_names() {
    assert_eq!(index_to_square(0), "a1");
    assert_eq!(index_to_square(7), "h1");
    assert_eq!(index_to_square(28), "e4");
    assert_eq!(index_to_square(63), "h8");
    assert_eq!(index_to_square(64), "N/A");
    assert_eq!(square_to_index("a1"), Some(0));
    assert_eq!(square_to_index("e4"), Some(28));
    assert_eq!(square_to_index("h8"), Some(63));
    assert_eq!(square_to_index("i1"), None);
    assert_eq!(square_to_index("a9"), None);
    assert_eq!(square_to_index("a"), None);
    assert_eq!(square_to_index("a10"), None);
    assert_eq!(square_to_index("-"), None);
    for index in 0..64 {
        assert_eq!(square_to_index(&index_to_square(index)), Some(index));
    }
}

#[test]
fn actions_are_built_with_and_without_tags() {
    let action = Action::from(12, 28, 0);
    assert_eq!(action, Action { from: 12, to: 28, info: 0, piece: 0 });
    assert_eq!(action.with_info(3), Action { from: 12, to: 28, info: 3, piece: 0 });
    assert_eq!(Team::White.next(), Team::Black);
    assert_eq!(Team::Black.next(), Team::White);
    assert_eq!(Team::White.index(), 0);
    assert_eq!(Team::Black.index(), 1);
    assert_ne!(GameState::Draw, GameState::Ongoing);
}

#[test]
fn moves_are_named_by_their_squares() {
    let chess = Chess::create(2).expect("magic constants are found");
    let board = chess.default().expect("the start position loads");
    let push = Action::from(12, 28, 0);
    assert_eq!(board.display_action(push), vec!["e2e4".to_string()]);
    assert_eq!(board.display_uci_action(push), "e2e4");
    let knight = Action::from(6, 21, 1);
    assert_eq!(board.display_action(knight), vec!["g1f3".to_string()]);

    let board = chess.load("r3k2r/8/8/8/8/8/8/R3K2R w KQkq - 0 1").expect("the position loads");
    let short = Action::from(4, 7, 5).with_info(1);
    assert_eq!(board.display_action(short), vec!["e1h1".to_string(), "e1g1".to_string()]);
    assert_eq!(board.display_uci_action(short), "e1g1");
    let long = Action::from(4, 0, 5).with_info(1);
    assert_eq!(board.display_action(long), vec!["e1a1".to_string(), "e1c1".to_string()]);
    assert_eq!(board.display_uci_action(long), "e1c1");
    let step = Action::from(4, 12, 5);
    assert_eq!(board.display_action(step), vec!["e1e2".to_string()]);
    assert_eq!(board.display_uci_action(step), "e1e2");

    let board = chess.load("8/Pk6/8/8/8/8/6Kp/8 w - - 0 1").expect("the position loads");
    let queen = Action::from(48, 56, 0).with_info(6);
    assert_eq!(board.display_action(queen), vec!["a7a8q".to_string()]);
    assert_eq!(board.display_uci_action(queen), "a7a8q");
    let knight = Action::from(48, 56, 0).with_info(3);
    assert_eq!(board.display_action(knight), vec!["a7a8n".to_string()]);
}

#[test]
fn moves_are_found_by_their_names() {
    let chess = Chess::create(2).expect("magic constants are found");
    let mut board = chess.default().expect("the start position loads");
    assert_eq!(board.find_action("e2e4"), Some(Action::from(12, 28, 0)));
    assert_eq!(board.find_action("g1f3"), Some(Action::from(6, 21, 1)));
    assert_eq!(board.find_action("e2e5"), None);
    assert_eq!(board.find_action("nonsense"), None);
    let before = board.state;
    assert!(board.play_action("e2e5").is_none());
    assert_eq!(board.state.pieces, before.pieces);
    assert!(board.history.is_empty());
    let prior = board.play_action("e2e4").expect("the move is known");
    assert_eq!(prior.pieces, before.pieces);
    assert_eq!(board.state.moving_team, Team::Black);
    assert_eq!(board.piece_at(28), Some(0));
    assert_eq!(board.piece_at(12), None);
    assert_eq!(board.history.len(), 1);

    let board = chess.load("r3k2r/8/8/8/8/8/8/R3K2R w KQkq - 0 1").expect("the position loads");
    assert_eq!(board.find_action("e1g1"), Some(Action::from(4, 7, 5).with_info(1)));
    assert_eq!(board.find_action("e1h1"), Some(Action::from(4, 7, 5).with_info(1)));
    let board = chess.load("8/Pk6/8/8/8/8/6Kp/8 w - - 0 1").expect("the position loads");
    assert_eq!(board.find_action("a7a8r"), Some(Action::from(48, 56, 0).with_info(5)));
    assert_eq!(board.find_action("a7a8"), None);
}

#[test]
fn suites_are_read_line_by_line() {
    let suite = parse_suite(
        "rnbqkbnr/pppppppp/8/8/8/8/PPPPPPPP/RNBQKBNR w KQkq - 0 1;20;400;8902\n8/8/8/8/8/8/8/8 w - - 0 1",
    )
    .expect("the numbers are numbers");
    assert_eq!(suite.len(), 2);
    assert_eq!(suite[0].pos, "rnbqkbnr/pppppppp/8/8/8/8/PPPPPPPP/RNBQKBNR w KQkq - 0 1");
    assert_eq!(suite[0].nodes, vec![20, 400, 8902]);
    assert_eq!(suite[1].pos, "8/8/8/8/8/8/8/8 w - - 0 1");
    assert!(suite[1].nodes.is_empty());
    let plus = parse_suite("x;+7;4294967295").expect("the numbers are numbers");
    assert_eq!(plus[0].nodes, vec![7, 4294967295]);
    assert!(parse_suite("x;4294967296").is_none());
    assert!(parse_suite("x;12a").is_none());
    assert!(parse_suite("x;").is_none());
    assert!(parse_suite("x;+").is_none());
    assert!(parse_suite("x;1\ny;-2").is_none());
    let empty = parse_suite("").expect("nothing is wrong with nothing");
    assert_eq!(empty.len(), 1);
    assert_eq!(empty[0].pos, "");
}

#[test]
fn suite_counts_agree_with_perft() {
    let chess = Chess::create(2).expect("magic constants are found");
    let suite = parse_suite(
        "rnbqkbnr/pppppppp/8/8/8/8/PPPPPPPP/RNBQKBNR w KQkq - 0 1;20;400;8902\n4k3/8/8/8/8/8/8/4K2R w K - 0 1;15;66;1197\nr3k2r/8/8/8/8/8/8/R3K2R w KQkq - 0 1;26;568;13744",
    )
    .expect("the numbers are numbers");
    for position in suite {
        let mut board = chess.load(&position.pos).expect("the position loads");
        for (index, nodes) in position.nodes.iter().enumerate() {
            assert_eq!(board.perft(index + 1), *nodes as usize);
        }
    }
}
