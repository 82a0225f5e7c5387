//! The rules of chess as the rules of a game.
use vstd::prelude::*;
use crate::bitboard::{BitBoard, Bounds};
use crate::chess::fen::{load_error, loaded, position_text};
use crate::chess::hash::{FEATURES, spec_hash};
use crate::chess::{ChessProcessor, chess_actions, in_check, spec_attacks};
use crate::game::action::{Action, ActionRecord};
use crate::game::load::LoadError;
use crate::game::piece_map::Letters;
use crate::game::rules::GameRules;
use crate::game::zobrist::ZobristTable;
use crate::game::{Board, BoardView, Game, GameState, Team};

verus! {

impl GameRules for ChessProcessor {
    open spec fn ready(&self, game: &Game) -> bool {
        game.chess_ok()
    }

    open spec fn allows(&self, position: BoardView, action: Action) -> bool {
        position.valid_action(action)
    }

    open spec fn listed(&self, game: &Game, position: BoardView, last: Option<ActionRecord>)
        -> Seq<Action> {
        chess_actions(game, position, last)
    }

    open spec fn moved(&self, position: BoardView, action: Action) -> BoardView {
        position.moved(action)
    }

    open spec fn attacked(&self, game: &Game, position: BoardView, mask: BitBoard) -> BitBoard {
        spec_attacks(game, position, mask)
    }

    open spec fn checked(&self, game: &Game, position: BoardView, team: Team) -> bool {
        in_check(game, position, team)
    }

    open spec fn refusal(&self, position: BoardView, text: Seq<char>, bounds: Bounds) -> Option<
        LoadError,
    > {
        load_error(position, text, bounds)
    }

    open spec fn loads(&self, before: BoardView, text: Seq<char>, bounds: Bounds, after: BoardView)
        -> bool {
        loaded(before, text, bounds, after)
    }

    open spec fn written(&self, position: BoardView, last: Option<ActionRecord>, bounds: Bounds)
        -> Seq<char> {
        position_text(position, last, bounds)
    }

    open spec fn features(&self) -> nat {
        FEATURES as nat
    }

    open spec fn hashed(&self, position: BoardView, last: Option<ActionRecord>, table: Seq<u64>)
        -> u64 {
        spec_hash(position, last, table)
    }

    fn load(&self, board: &mut Board, pos: &str) -> (r: Result<(), LoadError>) {
        ChessProcessor::load(self, board, pos)
    }

    fn save(&self, board: &Board) -> (text: String) {
        ChessProcessor::save(self, board)
    }

    fn piece_map(&self) -> (map: Letters) {
        ChessProcessor::piece_map(self)
    }

    fn actions(&self, board: &Board) -> (actions: Vec<Action>) {
        ChessProcessor::actions(self, board)
    }

    fn attacks(&self, board: &Board, mask: BitBoard) -> (r: BitBoard) {
        ChessProcessor::attacks(self, board, mask)
    }

    fn play(&self, board: &mut Board, act: Action) {
        ChessProcessor::play(self, board, act)
    }

    fn is_legal(&self, board: &Board) -> (r: bool) {
        ChessProcessor::is_legal(self, board)
    }

    fn game_state(&self, board: &Board, legal_actions: &[Action]) -> (r: GameState) {
        ChessProcessor::game_state(self, board, legal_actions)
    }

    fn gen_zobrist(&self, board: &Board, seed: u64) -> (table: ZobristTable) {
        ChessProcessor::gen_zobrist(self, board, seed)
    }

    fn hash(&self, board: &Board, table: &ZobristTable) -> (hash: u64) {
        ChessProcessor::hash(self, board, table)
    }
}

} // verus!
