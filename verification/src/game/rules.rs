//! What the rules of a game have to provide for a board to play it.
use vstd::prelude::*;
use crate::bitboard::{BitBoard, Bounds};
use crate::game::action::{Action, ActionRecord};
use crate::game::load::{LoadError, kinds_ok};
use crate::game::piece_map::{Letters, letters};
use crate::game::zobrist::ZobristTable;
use crate::game::{Board, BoardView, Game, GameState, Team};

verus! {

/// The rules of a game: how positions are read and written, which moves
/// there are and what they do, what is attacked, and how positions are
/// hashed.
pub trait GameRules {
    /// The game is set up for these rules.
    spec fn ready(&self, game: &Game) -> bool;

    /// The rules can apply the move to the position.
    spec fn allows(&self, position: BoardView, action: Action) -> bool;

    /// The moves of the team to move, whether or not they are legal.
    spec fn listed(&self, game: &Game, position: BoardView, last: Option<ActionRecord>) -> Seq<
        Action,
    >;

    /// The position after the pieces moved, the side to move left as it is.
    spec fn moved(&self, position: BoardView, action: Action) -> BoardView;

    /// What the team to move attacks, as far as `mask` is concerned.
    spec fn attacked(&self, game: &Game, position: BoardView, mask: BitBoard) -> BitBoard;

    /// Whether `team` stands in check.
    spec fn checked(&self, game: &Game, position: BoardView, team: Team) -> bool;

    /// Why the text of a position is turned down, if it is.
    spec fn refusal(&self, position: BoardView, text: Seq<char>, bounds: Bounds) -> Option<
        LoadError,
    >;

    /// Loading the text turns the position `before` into `after`.
    spec fn loads(&self, before: BoardView, text: Seq<char>, bounds: Bounds, after: BoardView)
        -> bool;

    /// The text of a position.
    spec fn written(&self, position: BoardView, last: Option<ActionRecord>, bounds: Bounds) -> Seq<
        char,
    >;

    /// The number of features by which positions are hashed.
    spec fn features(&self) -> nat;

    /// The hash of a position by a table.
    spec fn hashed(&self, position: BoardView, last: Option<ActionRecord>, table: Seq<u64>)
        -> u64;

    /// Sets the board up from the text of a position. Where the text is
    /// turned down the board is as it was.
    fn load(&self, board: &mut Board, pos: &str) -> (r: Result<(), LoadError>)
        requires
            old(board).state@.wf(),
            self.ready(old(board).game),
        ensures
            final(board).game == old(board).game,
            final(board).state@.wf(),
            match r {
                Ok(()) => self.refusal(old(board).state@, pos@, old(board).game.bounds).is_none()
                    && self.loads(
                    old(board).state@,
                    pos@,
                    old(board).game.bounds,
                    final(board).state@,
                ),
                Err(e) => self.refusal(old(board).state@, pos@, old(board).game.bounds) == Some(e)
                    && final(board).state == old(board).state && final(board).history == old(
                    board,
                ).history,
            },
    ;

    /// The text of the position on the board.
    fn save(&self, board: &Board) -> (text: String)
        requires
            self.ready(board.game),
            board.state@.wf(),
        ensures
            text@ == self.written(board.state@, board.last(), board.game.bounds),
    ;

    /// The letters of the kinds of pieces.
    fn piece_map(&self) -> (map: Letters)
        ensures
            kinds_ok(letters(map)),
    ;

    /// The moves of the team to move, whether or not they are legal; the
    /// rules can apply each of them.
    fn actions(&self, board: &Board) -> (actions: Vec<Action>)
        requires
            self.ready(board.game),
            board.state@.wf(),
        ensures
            actions@ == self.listed(board.game, board.state@, board.last()),
            forall|i: int|
                #![trigger actions@[i]]
                0 <= i < actions@.len() ==> self.allows(board.state@, actions@[i]),
    ;

    /// What the team to move attacks, as far as `mask` is concerned.
    fn attacks(&self, board: &Board, mask: BitBoard) -> (r: BitBoard)
        requires
            self.ready(board.game),
        ensures
            r == self.attacked(board.game, board.state@, mask),
    ;

    /// Applies a move to the position; the side to move stays.
    fn play(&self, board: &mut Board, act: Action)
        requires
            old(board).state@.wf(),
            self.allows(old(board).state@, act),
        ensures
            final(board).state@ == self.moved(old(board).state@, act),
            final(board).state@.wf(),
            final(board).game == old(board).game,
            final(board).history == old(board).history,
    ;

    /// Whether the move that was just played left the team that played it
    /// out of check.
    fn is_legal(&self, board: &Board) -> (r: bool)
        requires
            self.ready(board.game),
        ensures
            r == !self.checked(board.game, board.state@, board.state@.moving_team.next()),
    ;

    /// How the game stands for the team to move, whose legal moves are
    /// `legal_actions`: it goes on where there is a move; else the other
    /// team has won where the team to move stands in check, and it is a draw
    /// where it does not.
    fn game_state(&self, board: &Board, legal_actions: &[Action]) -> (r: GameState)
        requires
            self.ready(board.game),
        ensures
            r == if legal_actions@.len() > 0 {
                GameState::Ongoing
            } else if self.checked(board.game, board.state@, board.state@.moving_team) {
                GameState::Win(board.state@.moving_team.next())
            } else {
                GameState::Draw
            },
    ;

    /// A table with a number for every feature of a position, from a
    /// generator that starts from `seed`.
    fn gen_zobrist(&self, board: &Board, seed: u64) -> (table: ZobristTable)
        requires
            self.ready(board.game),
        ensures
            table.table@.len() == self.features(),
    ;

    /// The hash of the position on the board by a table.
    fn hash(&self, board: &Board, table: &ZobristTable) -> (hash: u64)
        requires
            self.ready(board.game),
            table.table@.len() == self.features(),
        ensures
            hash == self.hashed(board.state@, board.last(), table.table@),
    ;
}

} // verus!
