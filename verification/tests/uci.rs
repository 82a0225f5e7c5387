use chessing::bitboard::{BitBoard, Bounds};
use chessing::chess::pieces::pawn::create_pawn;
use chessing::chess::Chess;
use chessing::chess::ChessProcessor;
use chessing::game::action::Action;
use chessing::game::piece::{EmptyPieceRules, Piece, PieceRules};
use chessing::game::rules::GameRules;
use chessing::chess::pieces::sliders::bishop::BishopMoves;
use chessing::chess::pieces::sliders::magics::Magic;
use chessing::game::{Game, GameTemplate};
use chessing::uci::parse::{GoOption, UciCommand, UciPosition};
use chessing::uci::respond::Info;
use chessing::uci::Uci;

fn position_of(command: UciCommand) -> (Option<String>, Vec<String>) {
    match command {
        UciCommand::Position { position, moves } => match position {
            UciPosition::Startpos => (None, moves),
            UciPosition::Fen(fen) => (Some(fen), moves),
        },
        other => panic!("no position: {:?}", other),
    }
}

fn options_of(command: UciCommand) -> Vec<String> {
    match command {
        UciCommand::Go { options } => options.iter().map(|o| format!("{:?}", o)).collect(),
        other => panic!("no go: {:?}", other),
    }
}

#[test]
fn plain_commands_are_read() {
    assert!(matches!(Uci.parse("uci"), UciCommand::Uci()));
    assert!(matches!(Uci.parse("quit"), UciCommand::Quit()));
    assert!(matches!(Uci.parse("stop"), UciCommand::Stop()));
    assert!(matches!(Uci.parse("ucinewgame"), UciCommand::UciNewGame()));
    assert!(matches!(Uci.parse("isready"), UciCommand::IsReady()));
    match Uci.parse("hello there") {
        UciCommand::Unknown(text) => assert_eq!(text, "hello there"),
        other => panic!("not unknown: {:?}", other),
    }
    match Uci.parse("") {
        UciCommand::Unknown(text) => assert_eq!(text, ""),
        other => panic!("not unknown: {:?}", other),
    }
}

#[test]
fn position_commands_are_read() {
    assert_eq!(position_of(Uci.parse("position startpos")), (None, vec![]));
    assert_eq!(
        position_of(Uci.parse("position startpos moves e2e4 e7e5 g1f3")),
        (None, vec!["e2e4".to_string(), "e7e5".to_string(), "g1f3".to_string()])
    );
    assert_eq!(
        position_of(Uci.parse("position fen 8/8/8/8/8/8/8/K6k w - - 0 1")),
        (Some("8/8/8/8/8/8/8/K6k w - - 0 1".to_string()), vec![])
    );
    assert_eq!(
        position_of(Uci.parse("position fen 8/8/8/8/8/8/8/K6k w - - 0 1 moves a1a2")),
        (Some("8/8/8/8/8/8/8/K6k w - - 0 1".to_string()), vec!["a1a2".to_string()])
    );
}

#[test]
fn go_commands_are_read() {
    assert_eq!(options_of(Uci.parse("go")), Vec::<String>::new());
    assert_eq!(
        options_of(Uci.parse("go wtime 1000 btime 2000 winc 10 binc 20")),
        vec!["WTime(1000)", "BTime(2000)", "WInc(10)", "BInc(20)"]
    );
    assert_eq!(
        options_of(Uci.parse("go movetime 500 movestogo 40")),
        vec!["MovesToGo(40)", "MoveTime(500)"]
    );
    // A number that does not fit gives no option.
    assert_eq!(
        options_of(Uci.parse("go wtime 99999999999999999999999 btime 7")),
        vec!["BTime(7)"]
    );
    assert!(matches!(Uci.parse("go fast"), UciCommand::Unknown(_)));
    assert!(matches!(Uci.parse("gone"), UciCommand::Unknown(_)));
    let option = GoOption::WTime(3);
    assert_eq!(format!("{:?}", option), "WTime(3)");
}

#[test]
fn answers_are_written() {
    assert_eq!(Uci.id_author("someone"), "id author someone");
    assert_eq!(Uci.id_name("engine"), "id name engine");
    assert_eq!(Uci.uciok(), "uciok");
    assert_eq!(Uci.readyok(), "readyok");
    assert_eq!(Uci.bestmove("e2e4"), "bestmove e2e4");
    assert_eq!(Uci.info(&Info::default()), "info");
    let info = Info {
        depth: Some(12),
        seldepth: Some(20),
        multipv: Some(1),
        score_cp: Some(-35),
        score_mate: None,
        hashfull: Some(0),
        time: Some(1500),
        nodes: Some(18446744073709551615),
        nps: Some(1000000),
        pv: Some(vec!["e2e4".to_string(), "e7e5".to_string()]),
    };
    assert_eq!(
        Uci.info(&info),
        "info depth 12 seldepth 20 multipv 1 score cp -35 hashfull 0 time 1500 nodes 18446744073709551615 nps 1000000 pv e2e4 e7e5"
    );
    let mate = Info {
        score_mate: Some(i32::MIN),
        pv: Some(vec![]),
        ..Info::default()
    };
    assert_eq!(Uci.info(&mate), "info score mate -2147483648 pv ");
    let one = Info { score_mate: Some(3), pv: Some(vec!["a1a2".to_string()]), ..Info::default() };
    assert_eq!(Uci.info(&one), "info score mate 3 pv a1a2");
}

#[test]
fn pictures_show_the_rows_from_the_top() {
    let bounds = Bounds::new(2, 3);
    assert_eq!(
        BitBoard(0b100_001).display(bounds),
        "\u{2b1b}\u{2b1b}\u{2b1c}\n\u{2b1c}\u{2b1b}\u{2b1b}\n"
    );
    let picture = BitBoard::index(0).display(Bounds::new(8, 8));
    assert_eq!(picture.lines().count(), 8);
    assert_eq!(picture.lines().last(), Some("\u{2b1c}\u{2b1b}\u{2b1b}\u{2b1b}\u{2b1b}\u{2b1b}\u{2b1b}\u{2b1b}"));
}

#[test]
fn counts_are_told_move_by_move() {
    let chess = Chess::create(3).expect("magic constants are found");
    let mut board = chess.default().expect("the start position loads");
    let (nodes, lines) = board.perft_debug(2);
    assert_eq!(nodes, 400);
    assert_eq!(lines.len(), 20);
    assert_eq!(lines[0], "a2a3 - 20");
    assert_eq!(lines[1], "a2a4 - 20");
    assert_eq!(lines[2], "b1a3 - 20");
    assert_eq!(lines[3], "b1c3 - 20");
    assert_eq!(lines[19], "h2h4 - 20");
    assert!(lines.contains(&"e2e4 - 20".to_string()));
    assert!(lines.contains(&"g1f3 - 20".to_string()));
    let mut in_order = lines.clone();
    in_order.sort();
    assert_eq!(lines, in_order);
    let (nodes, lines) = board.perft_debug(0);
    assert_eq!(nodes, 1);
    assert!(lines.is_empty());
    let mut castle = chess.load("4k3/8/8/8/8/8/8/4K2R w K - 0 1").expect("the position loads");
    let (nodes, lines) = castle.perft_debug(1);
    assert_eq!(nodes, 15);
    assert!(lines.contains(&"e1g1 - 1".to_string()));
    let mut in_order = lines.clone();
    in_order.sort();
    assert_eq!(lines, in_order);
    let mut kiwipete = chess
        .load("r3k2r/p1ppqpb1/bn2pnp1/3PN3/1p2P3/2N2Q1p/PPPBBPPP/R3K2R w KQkq - 0 1")
        .expect("the position loads");
    let (nodes, lines) = kiwipete.perft_debug(2);
    assert_eq!(nodes, 2039);
    assert_eq!(lines.len(), 48);
    let mut in_order = lines.clone();
    in_order.sort();
    assert_eq!(lines, in_order);
}

#[test]
fn templates_set_games_up() {
    let game = <Chess as GameTemplate>::create(11).expect("magic constants are found");
    assert_eq!(game.default_pos, "rnbqkbnr/pppppppp/8/8/8/8/PPPPPPPP/RNBQKBNR w KQkq - 0 1");
    assert_eq!(game.bounds.rows, 8);
    assert_eq!(game.bounds.cols, 8);
    assert_eq!(game.edges.len(), 2);
    assert_eq!(game.lookup.len(), 6);
    let board = game.init();
    assert_eq!(board.state.white, BitBoard::empty());
    assert_eq!(board.state.mailbox, [255u8; 64]);
    assert!(board.history.is_empty());
}

fn bare_game() -> Game {
    let bounds = Bounds::new(8, 8);
    Game {
        edges: vec![BitBoard::edges(bounds, 1), BitBoard::edges(bounds, 2)],
        bounds,
        default_pos: String::new(),
        lookup: vec![vec![]; 6],
        magics: vec![vec![]; 6],
        tables: vec![vec![]; 6],
    }
}

#[test]
fn the_same_seed_gives_the_same_magic_constants() {
    let constants = |seed: u64| -> Vec<u64> {
        let mut game = bare_game();
        let mut rng = fastrand::Rng::with_seed(seed);
        assert!(Magic(BishopMoves).process(&mut game, 2, &mut rng));
        assert_eq!(game.lookup[2].len(), 5);
        assert_eq!(game.tables[2].len(), 64);
        game.magics[2].iter().map(|e| e.magic).collect()
    };
    let first = constants(11);
    assert_eq!(first.len(), 64);
    assert_eq!(first, constants(11));
    assert_ne!(first, constants(12));
}

#[test]
fn pieces_have_names() {
    let pawn = create_pawn();
    assert_eq!(pawn.symbol, "p");
    assert_eq!(pawn.name, "pawn");
    let none = Piece::new("x", "nothing", EmptyPieceRules);
    assert_eq!(none.symbol, "x");
    assert_eq!(none.name, "nothing");

    let chess = Chess::create(3).expect("magic constants are found");
    let board = chess.default().expect("the start position loads");
    assert_eq!(PieceRules::list_actions(&pawn.rules, &board, 0).len(), 16);
    assert_eq!(
        PieceRules::capture_mask(&pawn.rules, &board, 0, BitBoard::empty()),
        BitBoard(0x0000_0000_00ff_0000)
    );
    assert_eq!(
        PieceRules::display_uci_action(&pawn.rules, &board, Action::from(12, 28, 0)),
        "e2e4"
    );
    assert!(PieceRules::list_actions(&none.rules, &board, 0).is_empty());
    assert_eq!(
        PieceRules::capture_mask(&none.rules, &board, 0, BitBoard(u64::MAX)),
        BitBoard::empty()
    );
    assert_eq!(
        PieceRules::display_action(&none.rules, &board, Action::from(0, 9, 0)),
        vec!["a1b2".to_string()]
    );

    // The rules of chess through the rules of a game.
    assert_eq!(GameRules::actions(&ChessProcessor, &board).len(), 20);
    assert_eq!(GameRules::save(&ChessProcessor, &board), chess.default_pos);
    assert_eq!(GameRules::gen_zobrist(&ChessProcessor, &board, 1).table.len(), 915);
}
