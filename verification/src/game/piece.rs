//! What the rules of a kind of piece have to provide, and the pieces of a
//! game by their names.
use vstd::prelude::*;
use crate::bitboard::BitBoard;
use crate::game::action::{Action, ActionRecord};
use crate::game::notation::{move_name, name_move, texts_view};
use crate::game::text::{chars_of, text_of};
use crate::game::{Board, BoardView, Game, PIECE_KINDS};

verus! {

/// The rules of one kind of piece: how its tables are set up, which moves
/// it has and what they do, what it attacks, and how its moves are named.
pub trait PieceRules {
    /// The game is set up for pieces of this kind with the number
    /// `piece_index`.
    spec fn ready(&self, game: &Game, piece_index: int) -> bool;

    /// Setting up the tables of the kind turns the game `before` into
    /// `after`.
    spec fn processed(&self, before: Game, after: Game, piece_index: int) -> bool;

    /// What loading a position does for pieces of this kind to the squares
    /// that count as unmoved.
    spec fn unmoved(&self, game: &Game, position: BoardView, piece_index: int) -> BitBoard;

    /// The moves of the pieces of this kind of the team to move.
    spec fn listed(
        &self,
        game: &Game,
        position: BoardView,
        last: Option<ActionRecord>,
        piece_index: int,
    ) -> Seq<Action>;

    /// The rules can apply the move to the position.
    spec fn allows(&self, position: BoardView, action: Action) -> bool;

    /// The position after the pieces moved, the side to move left as it is.
    spec fn moved(&self, position: BoardView, action: Action) -> BoardView;

    /// What the pieces of this kind of the team to move attack, as far as
    /// `mask` is concerned.
    spec fn captured(&self, game: &Game, position: BoardView, piece_index: int, mask: BitBoard)
        -> BitBoard;

    /// The names by which a move of a piece of this kind is known; the
    /// first is the one for the protocol.
    spec fn names(&self, position: BoardView, action: Action) -> Seq<Seq<char>>;

    /// Sets up the tables of the kind.
    fn process(&self, game: &mut Game, piece_index: usize)
        requires
            piece_index < old(game).lookup@.len(),
            old(game).edges@.len() >= 1,
        ensures
            self.processed(*old(game), *final(game), piece_index as int),
    ;

    /// After a position was set up: settles which pieces of the kind count
    /// as unmoved.
    fn load(&self, board: &mut Board, piece_index: usize)
        requires
            piece_index < PIECE_KINDS,
            self.ready(old(board).game, piece_index as int),
        ensures
            final(board).game == old(board).game,
            final(board).history == old(board).history,
            final(board).state@ == (BoardView {
                first_move: self.unmoved(old(board).game, old(board).state@, piece_index as int),
                ..old(board).state@
            }),
    ;

    /// The moves of the pieces of the kind of the team to move.
    fn list_actions(&self, board: &Board, piece_index: usize) -> (actions: Vec<Action>)
        requires
            piece_index < PIECE_KINDS,
            self.ready(board.game, piece_index as int),
        ensures
            actions@ == self.listed(board.game, board.state@, board.last(), piece_index as int),
    ;

    /// Applies a move of a piece of the kind to the position; the side to
    /// move stays.
    fn make_move(&self, board: &mut Board, action: Action)
        requires
            old(board).state@.wf(),
            self.allows(old(board).state@, action),
        ensures
            final(board).state@ == self.moved(old(board).state@, action),
            final(board).state@.wf(),
            final(board).game == old(board).game,
            final(board).history == old(board).history,
    ;

    /// The names by which a move of a piece of the kind is known.
    fn display_action(&self, board: &Board, action: Action) -> (names: Vec<String>)
        ensures
            texts_view(names@) == self.names(board.state@, action),
            names@.len() >= 1,
    ;

    /// The name by which the protocol knows a move of a piece of the kind.
    fn display_uci_action(&self, board: &Board, action: Action) -> (name: String)
        ensures
            name@ == self.names(board.state@, action)[0],
    ;

    /// What the pieces of the kind of the team to move attack, as far as
    /// `mask` is concerned.
    fn capture_mask(&self, board: &Board, piece_index: usize, mask: BitBoard) -> (r: BitBoard)
        requires
            piece_index < PIECE_KINDS,
            self.ready(board.game, piece_index as int),
        ensures
            r == self.captured(board.game, board.state@, piece_index as int, mask),
    ;
}

/// A kind of piece: its letter, its name, and its rules.
pub struct Piece<R: PieceRules> {
    pub symbol: String,
    pub name: String,
    pub rules: R,
}

impl<R: PieceRules> Piece<R> {
    /// A kind of piece with its letter, its name and its rules.
    pub fn new(symbol: &str, name: &str, processor: R) -> (piece: Piece<R>)
        ensures
            piece.symbol@ == symbol@,
            piece.name@ == name@,
            piece.rules == processor,
    {
        Piece {
            symbol: text_of(&chars_of(symbol)),
            name: text_of(&chars_of(name)),
            rules: processor,
        }
    }
}

/// The rules of a kind of piece that has no moves.
pub struct EmptyPieceRules;

impl PieceRules for EmptyPieceRules {
    open spec fn ready(&self, game: &Game, piece_index: int) -> bool {
        true
    }

    /// Nothing is set up.
    open spec fn processed(&self, before: Game, after: Game, piece_index: int) -> bool {
        after == before
    }

    open spec fn unmoved(&self, game: &Game, position: BoardView, piece_index: int) -> BitBoard {
        position.first_move
    }

    /// There are no moves.
    open spec fn listed(
        &self,
        game: &Game,
        position: BoardView,
        last: Option<ActionRecord>,
        piece_index: int,
    ) -> Seq<Action> {
        Seq::empty()
    }

    /// No move can be applied.
    open spec fn allows(&self, position: BoardView, action: Action) -> bool {
        false
    }

    open spec fn moved(&self, position: BoardView, action: Action) -> BoardView {
        position
    }

    /// Nothing is attacked.
    open spec fn captured(&self, game: &Game, position: BoardView, piece_index: int, mask: BitBoard)
        -> BitBoard {
        BitBoard::empty()
    }

    open spec fn names(&self, position: BoardView, action: Action) -> Seq<Seq<char>> {
        seq![move_name(action.from, action.to)]
    }

    fn process(&self, game: &mut Game, piece_index: usize) {
    }

    fn load(&self, board: &mut Board, piece_index: usize) {
    }

    fn list_actions(&self, board: &Board, piece_index: usize) -> (actions: Vec<Action>) {
        Vec::new()
    }

    /// There is no move to apply: nothing can call this.
    fn make_move(&self, board: &mut Board, action: Action) {
    }

    fn display_action(&self, board: &Board, action: Action) -> (names: Vec<String>) {
        let mut names: Vec<String> = Vec::new();
        names.push(name_move(action.from, action.to));
        proof {
            assert(texts_view(names@) =~= seq![move_name(action.from, action.to)]);
        }
        names
    }

    fn display_uci_action(&self, board: &Board, action: Action) -> (name: String) {
        name_move(action.from, action.to)
    }

    fn capture_mask(&self, board: &Board, piece_index: usize, mask: BitBoard) -> (r: BitBoard) {
        BitBoard::empty()
    }
}

} // verus!
