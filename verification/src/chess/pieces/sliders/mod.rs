//! Pieces that slide along rays until something stands in their way.
pub mod bishop;
pub mod magics;
pub mod queen;
pub mod rook;
pub mod slider;

use vstd::prelude::*;
use crate::bitboard::{BitBoard, Edges};
use crate::bitboard::bits::{lowest, highest};
use crate::game::Game;

verus! {

/// The eight directions in which a piece can slide.
#[derive(Clone, Copy, Debug, PartialEq, Eq, Structural)]
pub enum Direction {
    Up,
    Down,
    Left,
    Right,
    UpRight,
    UpLeft,
    DownRight,
    DownLeft,
}

/// The squares of `pos` moved one step in a direction; what would leave the
/// board is lost.
pub open spec fn spec_shift(pos: BitBoard, dir: Direction, edges: &Edges) -> BitBoard {
    match dir {
        Direction::Up => pos.try_up(edges, 1, 8),
        Direction::Down => pos.try_down(edges, 1, 8),
        Direction::Left => pos.try_left(edges, 1),
        Direction::Right => pos.try_right(edges, 1),
        Direction::UpRight => pos.try_up(edges, 1, 8).try_right(edges, 1),
        Direction::UpLeft => pos.try_up(edges, 1, 8).try_left(edges, 1),
        Direction::DownRight => pos.try_down(edges, 1, 8).try_right(edges, 1),
        Direction::DownLeft => pos.try_down(edges, 1, 8).try_left(edges, 1),
    }
}

/// The squares of `pos` moved one step in a direction; what would leave the
/// board is lost.
#[verifier::when_used_as_spec(spec_shift)]
pub fn shift(pos: BitBoard, dir: Direction, edges: &Edges) -> (r: BitBoard)
    ensures
        r == spec_shift(pos, dir, edges),
{
    match dir {
        Direction::Up => pos.try_up(edges, 1, 8),
        Direction::Down => pos.try_down(edges, 1, 8),
        Direction::Left => pos.try_left(edges, 1),
        Direction::Right => pos.try_right(edges, 1),
        Direction::UpRight => pos.try_up(edges, 1, 8).try_right(edges, 1),
        Direction::UpLeft => pos.try_up(edges, 1, 8).try_left(edges, 1),
        Direction::DownRight => pos.try_down(edges, 1, 8).try_right(edges, 1),
        Direction::DownLeft => pos.try_down(edges, 1, 8).try_left(edges, 1),
    }
}

/// What `steps` more steps from `pos` add to the squares `out` that were
/// reached before: each step moves on from the squares that the last one
/// reached, and the walk ends when a step reaches nothing.
pub open spec fn walk(out: BitBoard, pos: BitBoard, dir: Direction, edges: &Edges, steps: nat)
    -> BitBoard
    decreases steps,
{
    let progress = shift(pos, dir, edges);
    if steps == 0 || !progress.is_set() {
        out
    } else {
        walk(out.or(progress), progress.and_not(pos), dir, edges, (steps - 1) as nat)
    }
}

/// The squares reached from `pos` by stepping on in one direction, at most
/// 64 times.
pub open spec fn spec_repeat(pos: BitBoard, dir: Direction, edges: &Edges) -> BitBoard {
    walk(BitBoard::empty(), pos, dir, edges, 64)
}

/// The squares reached from `pos` by stepping on in one direction until a
/// step reaches nothing; no walk on a board of 64 squares takes more than
/// 64 steps.
#[verifier::when_used_as_spec(spec_repeat)]
pub fn repeat(pos: BitBoard, dir: Direction, edges: &Edges) -> (r: BitBoard)
    ensures
        r == spec_repeat(pos, dir, edges),
{
    let mut out = BitBoard::empty();
    let mut at = pos;
    let mut left: u8 = 64;
    while left > 0
        invariant
            walk(out, at, dir, edges, left as nat) == spec_repeat(pos, dir, edges),
        decreases left,
    {
        let progress = shift(at, dir, edges);
        if !progress.is_set() {
            return out;
        }
        out = out.or(progress);
        at = progress.and_not(at);
        left = left - 1;
    }
    out
}

/// The part of a ray that a piece on `pos` reaches when `blockers` stand on
/// the board: the whole ray where no blocker stands on it; else the ray
/// without the ray that starts on the nearest blocker, which `table` gives.
/// The nearest blocker is the lowest one on a ray that runs upwards, the
/// highest one on a ray that runs downwards.
pub open spec fn spec_ray_attacks(
    table: Seq<BitBoard>,
    pos: usize,
    ray: BitBoard,
    blockers: BitBoard,
) -> BitBoard {
    let blocker = ray.and(blockers);
    if blocker.is_set() {
        let square = if BitBoard::index(pos as u16).0 < blocker.0 {
            lowest(blocker.0)
        } else {
            highest(blocker.0)
        };
        ray.xor(table[square as int])
    } else {
        ray
    }
}

/// The part of the ray `ray`, which runs from `pos` in direction `dir` of
/// the piece `piece_index`, that is reached when `blockers` stand on the
/// board.
pub fn ray_attacks(
    game: &Game,
    piece_index: usize,
    pos: usize,
    dir: usize,
    ray: BitBoard,
    blockers: BitBoard,
) -> (r: BitBoard)
    requires
        pos < 64,
        piece_index < game.lookup@.len(),
        dir < game.lookup[piece_index as int]@.len(),
        game.lookup[piece_index as int][dir as int]@.len() == 64,
    ensures
        r == spec_ray_attacks(game.lookup[piece_index as int][dir as int]@, pos, ray, blockers),
{
    let blocker = ray.and(blockers);
    if blocker.is_set() {
        let square = if BitBoard::index(pos as u16).lt(blocker) {
            blocker.bitscan_forward()
        } else {
            blocker.bitscan_backward()
        };
        ray.xor(game.lookup[piece_index][dir][square as usize])
    } else {
        ray
    }
}

} // verus!
