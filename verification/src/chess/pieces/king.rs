//! The king as a piece of the game.
use vstd::prelude::*;
use crate::bitboard::BitBoard;
use crate::chess::KING;
use crate::chess::pieces::leapers::king::{KingMoves, castling_actions, king_castles,
    make_castling_move};
use crate::chess::pieces::leapers::leaper::{Leaper, leaper_actions, leaper_hits};
use crate::game::action::{Action, make_chess_move};
use crate::game::notation::{is_castling_name, king_names, king_uci_name, name_move,
    texts_view};
use crate::game::{Board, Game, PIECE_KINDS};

verus! {

/// The king: its table, its moves, castling, and the names of its moves.
pub struct King;

impl King {
    /// Fills the king's table: for each square the squares next to it.
    pub fn process(&self, game: &mut Game, piece_index: usize)
        requires
            piece_index < old(game).lookup@.len(),
            old(game).edges@.len() >= 1,
        ensures
            final(game).leaper_ok(piece_index as int, KingMoves),
            final(game).lookup@.len() == old(game).lookup@.len(),
            forall|k: int|
                0 <= k < old(game).lookup@.len() && k != piece_index ==> final(game).lookup[k]
                    == old(game).lookup[k],
            final(game).edges == old(game).edges,
            final(game).bounds == old(game).bounds,
            final(game).default_pos == old(game).default_pos,
            final(game).magics == old(game).magics,
            final(game).tables == old(game).tables,
    {
        Leaper(KingMoves).process(game, piece_index)
    }

    /// `mask` where a king of the moving team reaches one of its squares,
    /// else nothing.
    pub fn attacks(&self, board: &Board, piece_index: usize, mask: BitBoard) -> (r: BitBoard)
        requires
            board.game.leaper_ok(piece_index as int, KingMoves),
            piece_index < PIECE_KINDS,
        ensures
            r == if leaper_hits(
                board.game.lookup[piece_index as int][0]@,
                board.state@.pieces[piece_index as int].and(board.state@.team_to_move()),
                mask,
            ) {
                mask
            } else {
                BitBoard::empty()
            },
    {
        if Leaper(KingMoves).attacks(board, piece_index, mask) {
            mask
        } else {
            BitBoard::empty()
        }
    }

    /// The moves of the kings of the moving team: their steps, then the
    /// ways to castle.
    pub fn actions(&self, board: &Board, piece_index: usize) -> (actions: Vec<Action>)
        requires
            board.game.chess_ok(),
            piece_index == KING,
            board.state@.wf(),
        ensures
            actions@ == leaper_actions(
                board.game.lookup[piece_index as int][0]@,
                board.state@,
                piece_index as int,
            ) + king_castles(board.game, board.state@, piece_index as int),
            board.state@.valid_actions(actions@),
    {
        let mut actions = Leaper(KingMoves).actions(board, piece_index);
        let ghost steps = actions@;
        let mut castles = castling_actions(board, piece_index);
        let ghost ways = castles@;
        actions.append(&mut castles);
        proof {
            assert forall|i: int| 0 <= i < actions@.len() implies board.state@.valid_action(
                #[trigger] actions@[i],
            ) by {
                if i < steps.len() {
                    assert(actions@[i] == steps[i]);
                } else {
                    assert(actions@[i] == ways[i - steps.len()]);
                }
            }
        }
        actions
    }

    /// Applies a king's move to the position: castling where the move
    /// carries the tag 1, else an ordinary move. The side to move stays.
    pub fn make_move(&self, board: &mut Board, action: Action)
        requires
            old(board).state@.wf(),
            action.piece == KING,
            old(board).state@.valid_action(action),
        ensures
            final(board).state@ == old(board).state@.moved(action),
            final(board).state@.wf(),
            final(board).game == old(board).game,
            final(board).history == old(board).history,
    {
        if action.info == 1 {
            make_castling_move(&mut board.state, action)
        } else {
            make_chess_move(&mut board.state, action)
        }
    }

    /// The names of a king's move: the squares that the move gives; and,
    /// where the king castles, also its own square and the square on which
    /// it lands.
    pub fn display_action(&self, board: &Board, action: Action) -> (names: Vec<String>)
        ensures
            texts_view(names@) == king_names(board.state@, action),
    {
        let display = name_move(action.from, action.to);
        let mut names: Vec<String> = Vec::new();
        names.push(display);
        if is_castling_name(board, action) {
            let king_dest: u16 = if action.to > action.from {
                action.from + 2
            } else {
                (action.from - 2) as u16
            };
            // The king does not step two squares, so this is castling.
            names.push(name_move(action.from, king_dest));
        }
        proof {
            assert(texts_view(names@) =~= king_names(board.state@, action));
        }
        names
    }

    /// The name of a king's move for the protocol: where the king castles,
    /// its own square and the square on which it lands.
    pub fn display_uci_action(&self, board: &Board, action: Action) -> (name: String)
        ensures
            name@ == king_uci_name(board.state@, action),
    {
        if is_castling_name(board, action) {
            let king_dest: u16 = if action.to > action.from {
                action.from + 2
            } else {
                (action.from - 2) as u16
            };
            name_move(action.from, king_dest)
        } else {
            name_move(action.from, action.to)
        }
    }
}

} // verus!
