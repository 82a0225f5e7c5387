//! The rules of chess on an 8 by 8 board.
pub mod attack;
pub mod distinct;
pub mod fen;
pub mod geometry;
pub mod hash;
pub mod moves;
pub mod pieces;
pub mod reread;
pub mod rights;
pub mod round_trip;
pub mod rules;

use vstd::prelude::*;
use crate::bitboard::{BitBoard, Bounds, Edges};
use crate::game::random::seeded;
use crate::game::{AttackLookup, PieceMagics};
use crate::chess::pieces::king::King;
use crate::chess::pieces::knight::Knight;
use crate::chess::pieces::leapers::king::{KingMoves, king_castles};
use crate::chess::pieces::leapers::knight::KnightMoves;
use crate::chess::pieces::leapers::leaper::{leaper_actions, leaper_hits};
use crate::chess::pieces::pawn::{PawnRules, pawn_actions, pawn_captures};
use crate::chess::pieces::sliders::bishop::BishopMoves;
use crate::chess::pieces::sliders::magics::{Magic, magic_actions, magic_hits};
use crate::chess::pieces::sliders::queen::QueenMoves;
use crate::chess::pieces::sliders::rook::RookMoves;
use crate::chess::pieces::sliders::slider::{Slider, slider_actions, slider_hits};
use crate::game::action::{Action, ActionRecord, make_chess_move};
use crate::game::{Board, BoardView, Game, GameState, GameTemplate, Team, PIECE_KINDS};

verus! {

/// The number of the kind pawn.
pub const PAWN: usize = 0;

/// The number of the kind knight.
pub const KNIGHT: usize = 1;

/// The number of the kind bishop.
pub const BISHOP: usize = 2;

/// The number of the kind rook.
pub const ROOK: usize = 3;

/// The number of the kind queen.
pub const QUEEN: usize = 4;

/// The number of the kind king.
pub const KING: usize = 5;

impl BoardView {
    /// What a move needs for the position after it to be well formed: a
    /// pawn's move with the tag 1 is an en passant capture, with a higher
    /// tag a promotion; a king's move with the tag 1 is castling; every
    /// other move is an ordinary one.
    pub open spec fn valid_action(self, action: Action) -> bool {
        if action.piece == PAWN {
            if action.info == 0 {
                self.can_move(action)
            } else if action.info == 1 {
                self.can_en_passant(action)
            } else {
                self.can_promote(action)
            }
        } else if action.piece == KING && action.info == 1 {
            self.can_castle(action)
        } else {
            self.can_move(action)
        }
    }

    /// Every one of `actions` is a move that the position allows.
    pub open spec fn valid_actions(self, actions: Seq<Action>) -> bool {
        forall|i: int| #![trigger actions[i]] 0 <= i < actions.len() ==> self.valid_action(actions[i])
    }

    /// The position after the pieces moved, the side to move left as it is.
    pub open spec fn moved(self, action: Action) -> BoardView {
        if action.piece == PAWN {
            if action.info == 0 {
                self.after_move(action)
            } else if action.info == 1 {
                self.after_en_passant(action)
            } else {
                self.after_promotion(action)
            }
        } else if action.piece == KING && action.info == 1 {
            self.after_castling(action)
        } else {
            self.after_move(action)
        }
    }

    /// The position with the other team to move.
    pub open spec fn passed(self) -> BoardView {
        BoardView { moving_team: self.moving_team.next(), ..self }
    }

    /// The position after a move: the pieces moved, and the other team is
    /// to move.
    pub open spec fn played(self, action: Action) -> BoardView {
        self.moved(action).passed()
    }

    /// A move that the position allows leaves it well formed.
    pub proof fn lemma_played_wf(self, action: Action)
        requires
            self.wf(),
            self.valid_action(action),
        ensures
            self.moved(action).wf(),
            self.played(action).wf(),
    {
        if action.piece == PAWN {
            if action.info == 0 {
                self.lemma_after_move_wf(action);
            } else if action.info == 1 {
                self.lemma_after_en_passant_wf(action);
            } else {
                self.lemma_after_promotion_wf(action);
            }
        } else if action.piece == KING && action.info == 1 {
            self.lemma_after_castling_wf(action);
        } else {
            self.lemma_after_move_wf(action);
        }
        self.moved(action).lemma_passed_wf();
    }

    /// Passing the move leaves a position well formed.
    pub proof fn lemma_passed_wf(self)
        requires
            self.wf(),
        ensures
            self.passed().wf(),
    {
        assert forall|sq: int| 0 <= sq < 64 implies #[trigger] self.passed().square_ok(sq) by {
            assert(self.square_ok(sq));
        }
    }
}

impl Game {
    /// The game is set up for chess: the 8 by 8 board with its edges, the
    /// tables of knight and king, the rays of bishop, rook and queen, and
    /// the magic tables of bishop and rook.
    pub open spec fn chess_ok(&self) -> bool {
        &&& self.board_ok()
        &&& self.lookup@.len() == PIECE_KINDS
        &&& self.magics@.len() == PIECE_KINDS
        &&& self.tables@.len() == PIECE_KINDS
        &&& self.leaper_ok(KNIGHT as int, KnightMoves)
        &&& self.magic_ok(BISHOP as int, BishopMoves)
        &&& self.magic_ok(ROOK as int, RookMoves)
        &&& self.slider_ok(QUEEN as int, QueenMoves)
        &&& self.leaper_ok(KING as int, KingMoves)
    }
}

/// `mask` where `hit` holds, else nothing.
pub open spec fn mask_if(hit: bool, mask: BitBoard) -> BitBoard {
    if hit {
        mask
    } else {
        BitBoard::empty()
    }
}

/// What the team to move attacks, as far as `mask` is concerned: the squares
/// that its pawns attack, and all of `mask` where one of its other pieces
/// reaches a square of `mask`.
pub open spec fn spec_attacks(game: &Game, position: BoardView, mask: BitBoard) -> BitBoard {
    let team = position.team_to_move();
    let all = position.occupied();
    pawn_captures(position, game.edges[0], PAWN as int, position.moving_team).or(
        mask_if(
            leaper_hits(
                game.lookup[KNIGHT as int][0]@,
                position.pieces[KNIGHT as int].and(team),
                mask,
            ),
            mask,
        ),
    ).or(
        mask_if(
            magic_hits(game, BISHOP as int, position.pieces[BISHOP as int].and(team), all, team, mask),
            mask,
        ),
    ).or(
        mask_if(
            magic_hits(game, ROOK as int, position.pieces[ROOK as int].and(team), all, team, mask),
            mask,
        ),
    ).or(
        mask_if(
            slider_hits(
                game.lookup[QUEEN as int]@,
                position.pieces[QUEEN as int].and(team),
                all,
                mask,
            ),
            mask,
        ),
    ).or(
        mask_if(
            leaper_hits(game.lookup[KING as int][0]@, position.pieces[KING as int].and(team), mask),
            mask,
        ),
    )
}

/// The squares of the kings of `team`.
pub open spec fn king_of(position: BoardView, team: Team) -> BitBoard {
    position.pieces[KING as int].and(position.team(team))
}

/// Whether a king of `team` stands on a square that the other team attacks.
pub open spec fn in_check(game: &Game, position: BoardView, team: Team) -> bool {
    let king = king_of(position, team);
    spec_attacks(game, BoardView { moving_team: team.next(), ..position }, king).and(king).is_set()
}

/// The moves of the team to move, whether or not they leave its king
/// attacked: those of the pawns, the knights, the bishops, the rooks, the
/// queens and the kings, in this order.
pub open spec fn chess_actions(game: &Game, position: BoardView, last: Option<ActionRecord>) -> Seq<
    Action,
> {
    pawn_actions(
        position,
        last,
        game.edges[0],
        game.bounds,
        PAWN as int,
        position.moving_team,
    ) + leaper_actions(game.lookup[KNIGHT as int][0]@, position, KNIGHT as int) + magic_actions(
        game,
        position,
        BISHOP as int,
    ) + magic_actions(game, position, ROOK as int) + slider_actions(
        game.lookup[QUEEN as int]@,
        position,
        QUEEN as int,
    ) + leaper_actions(game.lookup[KING as int][0]@, position, KING as int) + king_castles(
        game,
        position,
        KING as int,
    )
}

/// Whether the move leaves no king of the team that made it attacked.
pub open spec fn legal_after(game: &Game, position: BoardView, action: Action) -> bool {
    !in_check(game, position.played(action), position.moving_team)
}

/// Those of `actions`, in their order, that leave no king of the moving
/// team attacked.
pub open spec fn legal_among(game: &Game, position: BoardView, actions: Seq<Action>) -> Seq<Action>
    decreases actions.len(),
{
    if actions.len() == 0 {
        Seq::empty()
    } else {
        legal_among(game, position, actions.drop_last()) + if legal_after(
            game,
            position,
            actions.last(),
        ) {
            seq![actions.last()]
        } else {
            Seq::empty()
        }
    }
}

/// The legal moves of the team to move.
pub open spec fn legal_actions(game: &Game, position: BoardView, last: Option<ActionRecord>) -> Seq<
    Action,
> {
    legal_among(game, position, chess_actions(game, position, last))
}

/// How the game stands for the team to move, which has `moves` legal moves:
/// it goes on where there is a move; else the other team has won where a
/// king of the team to move is attacked, and it is a draw where none is.
pub open spec fn spec_game_state(game: &Game, position: BoardView, moves: nat) -> GameState {
    if moves > 0 {
        GameState::Ongoing
    } else if in_check(game, position, position.moving_team) {
        GameState::Win(position.moving_team.next())
    } else {
        GameState::Draw
    }
}

/// The rules of chess.
pub struct ChessProcessor;

impl ChessProcessor {
    /// The moves of the team to move, whether or not they leave its king
    /// attacked.
    pub fn actions(&self, board: &Board) -> (actions: Vec<Action>)
        requires
            board.game.chess_ok(),
            board.state@.wf(),
        ensures
            actions@ == chess_actions(board.game, board.state@, board.last()),
            board.state@.valid_actions(actions@),
    {
        let mut actions = PawnRules.list_actions(board, PAWN);
        let ghost pawns = actions@;
        let mut knights = Knight.actions(board, KNIGHT);
        let ghost steps = knights@;
        actions.append(&mut knights);
        let ghost leaps = actions@;
        Magic(BishopMoves).add_actions(board, &mut actions, BISHOP);
        let ghost bishops = actions@;
        Magic(RookMoves).add_actions(board, &mut actions, ROOK);
        let ghost rooks = actions@;
        let mut queens = Slider(QueenMoves).actions(board, QUEEN);
        let ghost slides = queens@;
        actions.append(&mut queens);
        let ghost lines = actions@;
        let mut kings = King.actions(board, KING);
        let ghost walks = kings@;
        actions.append(&mut kings);
        proof {
            let position = board.state@;
            let king_steps = leaper_actions(board.game.lookup[KING as int][0]@, position, KING as int);
            let castles = king_castles(board.game, position, KING as int);
            assert(lines + (king_steps + castles) =~= lines + king_steps + castles);
            assert forall|i: int| 0 <= i < actions@.len() implies position.valid_action(
                #[trigger] actions@[i],
            ) by {
                let a = actions@[i];
                if i < pawns.len() {
                    assert(a == pawns[i]);
                } else if i < leaps.len() {
                    assert(a == steps[i - pawns.len()]);
                } else if i < bishops.len() {
                    assert(a == magic_actions(board.game, position, BISHOP as int)[i - leaps.len()]);
                } else if i < rooks.len() {
                    assert(a == magic_actions(board.game, position, ROOK as int)[i - bishops.len()]);
                } else if i < lines.len() {
                    assert(a == slides[i - rooks.len()]);
                } else {
                    assert(a == walks[i - lines.len()]);
                }
            }
        }
        actions
    }

    /// What the team to move attacks, as far as `mask` is concerned.
    pub fn attacks(&self, board: &Board, mask: BitBoard) -> (r: BitBoard)
        requires
            board.game.chess_ok(),
        ensures
            r == spec_attacks(board.game, board.state@, mask),
    {
        let mut captures = PawnRules.capture_mask(board, PAWN, mask);

        captures = captures.or(Knight.attacks(board, KNIGHT, mask));
        captures = captures.or(
            if Magic(BishopMoves).attacks(board, BISHOP, mask) {
                mask
            } else {
                BitBoard::empty()
            },
        );
        captures = captures.or(
            if Magic(RookMoves).attacks(board, ROOK, mask) {
                mask
            } else {
                BitBoard::empty()
            },
        );
        captures = captures.or(
            if Slider(QueenMoves).attacks(board, QUEEN, mask) {
                mask
            } else {
                BitBoard::empty()
            },
        );
        captures = captures.or(King.attacks(board, KING, mask));

        captures
    }

    /// Applies a move to the position by the rules of the piece that moves.
    /// The side to move stays.
    pub fn play(&self, board: &mut Board, act: Action)
        requires
            old(board).state@.wf(),
            old(board).state@.valid_action(act),
        ensures
            final(board).state@ == old(board).state@.moved(act),
            final(board).state@.wf(),
            final(board).game == old(board).game,
            final(board).history == old(board).history,
    {
        proof {
            assert(board.state@.square_ok(act.from as int));
        }
        let piece_index = board.state.mailbox[act.from as usize] as usize;

        if piece_index == PAWN {
            PawnRules.make_move(board, act)
        } else if piece_index == KING {
            King.make_move(board, act)
        } else {
            make_chess_move(&mut board.state, act)
        }
    }

    /// Whether the move that was just played left no king of the team that
    /// played it attacked.
    pub fn is_legal(&self, board: &Board) -> (r: bool)
        requires
            board.game.chess_ok(),
        ensures
            r == !in_check(board.game, board.state@, board.state@.moving_team.next()),
    {
        let king = board.state.pieces[KING].and(board.state.opposite_team());
        let mask = self.attacks(board, king);
        proof {
            assert(board.state@ == (BoardView {
                moving_team: board.state@.moving_team.next().next(),
                ..board.state@
            }));
        }
        mask.and(king).is_empty()
    }

    /// How the game stands for the team to move, whose legal moves are
    /// `actions`.
    pub fn game_state(&self, board: &Board, actions: &[Action]) -> (r: GameState)
        requires
            board.game.chess_ok(),
        ensures
            r == spec_game_state(board.game, board.state@, actions@.len()),
    {
        if actions.len() == 0 {
            let king = board.state.pieces[KING].and(board.state.team_to_move());
            let turned = Board {
                game: board.game,
                state: crate::game::BoardState {
                    moving_team: board.state.moving_team.next(),
                    first_move: board.state.first_move,
                    white: board.state.white,
                    black: board.state.black,
                    pieces: board.state.pieces,
                    mailbox: board.state.mailbox,
                },
                history: Vec::new(),
            };
            let captures = self.attacks(&turned, king);

            if captures.and(king).is_set() {
                GameState::Win(board.state.moving_team.next())
            } else {
                GameState::Draw
            }
        } else {
            GameState::Ongoing
        }
    }
}

/// The game of chess as a kind of game that can be set up.
pub struct Chess;

/// The position from which a game of chess starts.
pub open spec fn start_position() -> Seq<char> {
    "rnbqkbnr/pppppppp/8/8/8/8/PPPPPPPP/RNBQKBNR w KQkq - 0 1"@
}

impl Chess {
    /// Sets the game of chess up: the 8 by 8 board, its edges, and the
    /// tables of the pieces; the magic constants are drawn from a generator
    /// that starts from `seed`. Nothing comes back where the search for
    /// magic constants gives up.
    pub fn create(seed: u64) -> (r: Option<Game>)
        ensures
            r matches Some(game) ==> game.chess_ok() && game.default_pos@ == start_position(),
    {
        let bounds = Bounds::new(8, 8);
        let mut edges: Vec<Edges> = Vec::new();
        edges.push(BitBoard::edges(bounds, 1));
        edges.push(BitBoard::edges(bounds, 2));
        let mut lookup: Vec<AttackLookup> = Vec::new();
        let mut magics: Vec<PieceMagics> = Vec::new();
        let mut tables: Vec<AttackLookup> = Vec::new();
        let mut kind: usize = 0;
        while kind < PIECE_KINDS
            invariant
                kind <= PIECE_KINDS,
                lookup@.len() == kind,
                magics@.len() == kind,
                tables@.len() == kind,
            decreases PIECE_KINDS - kind,
        {
            lookup.push(Vec::new());
            magics.push(Vec::new());
            tables.push(Vec::new());
            kind = kind + 1;
        }
        let mut game = Game {
            bounds,
            default_pos: "rnbqkbnr/pppppppp/8/8/8/8/PPPPPPPP/RNBQKBNR w KQkq - 0 1".to_string(),
            lookup,
            magics,
            tables,
            edges,
        };
        let mut rng = seeded(seed);

        Knight.process(&mut game, KNIGHT);
        if !Magic(BishopMoves).process(&mut game, BISHOP, &mut rng) {
            return None;
        }
        if !Magic(RookMoves).process(&mut game, ROOK, &mut rng) {
            return None;
        }
        Slider(QueenMoves).process(&mut game, QUEEN);
        King.process(&mut game, KING);
        Some(game)
    }
}

impl GameTemplate for Chess {
    /// The game is set up for chess and starts from the start position.
    open spec fn ready(game: &Game) -> bool {
        game.chess_ok() && game.default_pos@ == start_position()
    }

    fn create(seed: u64) -> (r: Option<Game>) {
        Chess::create(seed)
    }
}

} // verus!
