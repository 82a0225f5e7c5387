//! The knight as a piece of the game.
use vstd::prelude::*;
use crate::bitboard::BitBoard;
use crate::chess::pieces::leapers::knight::KnightMoves;
use crate::chess::pieces::leapers::leaper::{Leaper, leaper_actions, leaper_hits};
use crate::game::action::Action;
use crate::game::{Board, Game, PIECE_KINDS};

verus! {

/// The knight: its table and its moves.
pub struct Knight;

impl Knight {
    /// Fills the knight's table: for each square the squares that a knight
    /// reaches from it.
    pub fn process(&self, game: &mut Game, piece_index: usize)
        requires
            piece_index < old(game).lookup@.len(),
            old(game).edges@.len() >= 1,
        ensures
            final(game).leaper_ok(piece_index as int, KnightMoves),
            final(game).lookup@.len() == old(game).lookup@.len(),
            forall|k: int|
                0 <= k < old(game).lookup@.len() && k != piece_index ==> final(game).lookup[k]
                    == old(game).lookup[k],
            final(game).edges == old(game).edges,
            final(game).bounds == old(game).bounds,
            final(game).default_pos == old(game).default_pos,
            final(game).magics == old(game).magics,
            final(game).tables == old(game).tables,
    {
        Leaper(KnightMoves).process(game, piece_index)
    }

    /// `mask` where a knight of the moving team reaches one of its squares,
    /// else nothing.
    pub fn attacks(&self, board: &Board, piece_index: usize, mask: BitBoard) -> (r: BitBoard)
        requires
            board.game.leaper_ok(piece_index as int, KnightMoves),
            piece_index < PIECE_KINDS,
        ensures
            r == if leaper_hits(
                board.game.lookup[piece_index as int][0]@,
                board.state@.pieces[piece_index as int].and(board.state@.team_to_move()),
                mask,
            ) {
                mask
            } else {
                BitBoard::empty()
            },
    {
        if Leaper(KnightMoves).attacks(board, piece_index, mask) {
            mask
        } else {
            BitBoard::empty()
        }
    }

    /// The moves of the knights of the moving team.
    pub fn actions(&self, board: &Board, piece_index: usize) -> (actions: Vec<Action>)
        requires
            board.game.leaper_ok(piece_index as int, KnightMoves),
            piece_index < PIECE_KINDS,
            board.state@.wf(),
        ensures
            actions@ == leaper_actions(
                board.game.lookup[piece_index as int][0]@,
                board.state@,
                piece_index as int,
            ),
            board.state@.plain_moves(actions@, piece_index as int),
    {
        Leaper(KnightMoves).actions(board, piece_index)
    }
}

} // verus!
