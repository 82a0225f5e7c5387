//! The knight.
use vstd::prelude::*;
use crate::bitboard::{BitBoard, Edges};
use crate::chess::pieces::leapers::leaper::LeaperMoves;

verus! {

/// How the knight leaps.
pub struct KnightMoves;

impl LeaperMoves for KnightMoves {
    /// Two squares along a row or a column, then one square to either side.
    open spec fn spec_leaps(&self, pos: BitBoard, edges: &Edges) -> BitBoard {
        let horizontal = pos.try_right(edges, 2).or(pos.try_left(edges, 2));
        let vertical = pos.try_up(edges, 2, 8).or(pos.try_down(edges, 2, 8));
        let horizontal_moves = horizontal.try_up(edges, 1, 8).or(horizontal.try_down(edges, 1, 8));
        let vertical_moves = vertical.try_right(edges, 1).or(vertical.try_left(edges, 1));
        horizontal_moves.or(vertical_moves)
    }

    fn leaps(&self, pos: BitBoard, edges: &Edges) -> (r: BitBoard) {
        let two_right = pos.try_right(edges, 2);
        let two_left = pos.try_left(edges, 2);
        let two_up = pos.try_up(edges, 2, 8);
        let two_down = pos.try_down(edges, 2, 8);

        let horizontal = two_right.or(two_left);
        let vertical = two_up.or(two_down);

        let horizontal_moves = horizontal.try_up(edges, 1, 8).or(horizontal.try_down(edges, 1, 8));
        let vertical_moves = vertical.try_right(edges, 1).or(vertical.try_left(edges, 1));

        horizontal_moves.or(vertical_moves)
    }
}

} // verus!
