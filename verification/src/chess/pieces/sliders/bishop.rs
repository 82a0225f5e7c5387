//! The bishop.
use vstd::prelude::*;
use crate::bitboard::{BitBoard, Edges};
use crate::chess::pieces::sliders::{Direction, repeat};
use crate::chess::pieces::sliders::slider::{SliderMoves, spec_rays};

verus! {

/// How the bishop slides.
#[derive(Copy, Clone)]
pub struct BishopMoves;

impl SliderMoves for BishopMoves {
    /// The four diagonals.
    open spec fn directions(&self) -> Seq<Direction> {
        seq![
            Direction::UpRight,
            Direction::UpLeft,
            Direction::DownRight,
            Direction::DownLeft,
        ]
    }

    fn rays(&self, pos: BitBoard, edges: &Edges) -> (r: Vec<BitBoard>) {
        let up_right_ray = repeat(pos, Direction::UpRight, edges);
        let up_left_ray = repeat(pos, Direction::UpLeft, edges);
        let down_right_ray = repeat(pos, Direction::DownRight, edges);
        let down_left_ray = repeat(pos, Direction::DownLeft, edges);

        let mut rays: Vec<BitBoard> = Vec::new();
        rays.push(up_right_ray);
        rays.push(up_left_ray);
        rays.push(down_right_ray);
        rays.push(down_left_ray);
        proof {
            assert(rays@ =~= spec_rays(self.directions(), pos, edges));
        }
        rays
    }
}

} // verus!
