//! The rook.
use vstd::prelude::*;
use crate::bitboard::{BitBoard, Edges};
use crate::chess::pieces::sliders::{Direction, repeat};
use crate::chess::pieces::sliders::slider::{SliderMoves, spec_rays};

verus! {

/// How the rook slides.
#[derive(Copy, Clone)]
pub struct RookMoves;

impl SliderMoves for RookMoves {
    /// Up, down, left and right.
    open spec fn directions(&self) -> Seq<Direction> {
        seq![
            Direction::Up,
            Direction::Down,
            Direction::Left,
            Direction::Right,
        ]
    }

    fn rays(&self, pos: BitBoard, edges: &Edges) -> (r: Vec<BitBoard>) {
        let up_ray = repeat(pos, Direction::Up, edges);
        let down_ray = repeat(pos, Direction::Down, edges);
        let left_ray = repeat(pos, Direction::Left, edges);
        let right_ray = repeat(pos, Direction::Right, edges);

        let mut rays: Vec<BitBoard> = Vec::new();
        rays.push(up_ray);
        rays.push(down_ray);
        rays.push(left_ray);
        rays.push(right_ray);
        proof {
            assert(rays@ =~= spec_rays(self.directions(), pos, edges));
        }
        rays
    }
}

} // verus!
