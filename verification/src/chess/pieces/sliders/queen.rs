//! The queen.
use vstd::prelude::*;
use crate::bitboard::{BitBoard, Edges};
use crate::chess::pieces::sliders::{Direction, repeat};
use crate::chess::pieces::sliders::slider::{SliderMoves, spec_rays};

verus! {

/// How the queen slides.
#[derive(Copy, Clone)]
pub struct QueenMoves;

impl SliderMoves for QueenMoves {
    /// The rook's four directions, then the bishop's four.
    open spec fn directions(&self) -> Seq<Direction> {
        seq![
            Direction::Up,
            Direction::Down,
            Direction::Left,
            Direction::Right,
            Direction::UpRight,
            Direction::UpLeft,
            Direction::DownRight,
            Direction::DownLeft,
        ]
    }

    fn rays(&self, pos: BitBoard, edges: &Edges) -> (r: Vec<BitBoard>) {
        let up_ray = repeat(pos, Direction::Up, edges);
        let down_ray = repeat(pos, Direction::Down, edges);
        let left_ray = repeat(pos, Direction::Left, edges);
        let right_ray = repeat(pos, Direction::Right, edges);
        let up_right_ray = repeat(pos, Direction::UpRight, edges);
        let up_left_ray = repeat(pos, Direction::UpLeft, edges);
        let down_right_ray = repeat(pos, Direction::DownRight, edges);
        let down_left_ray = repeat(pos, Direction::DownLeft, edges);

        let mut rays: Vec<BitBoard> = Vec::new();
        rays.push(up_ray);
        rays.push(down_ray);
        rays.push(left_ray);
        rays.push(right_ray);
        rays.push(up_right_ray);
        rays.push(up_left_ray);
        rays.push(down_right_ray);
        rays.push(down_left_ray);
        proof {
            assert(rays@ =~= spec_rays(self.directions(), pos, edges));
        }
        rays
    }
}

} // verus!
