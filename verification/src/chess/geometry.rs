//! The squares of the 8 by 8 board by their rows and columns, and what the
//! pieces' tables hold in those terms.
use vstd::prelude::*;
use crate::bitboard::{BitBoard, Bounds, Edges};
use crate::bitboard::group_bitboard_has;
use crate::bitboard::{lemma_count_one, lemma_empty_iff, lemma_same_squares, only_square, popcount};
use crate::chess::pieces::sliders::magics::{relevant_mask, relevant_of};
use crate::chess::pieces::sliders::slider::spec_rays;
use crate::bitboard::bits::{highest, lemma_highest, lemma_lowest, lemma_single_between, lowest};
use crate::chess::pieces::sliders::slider::{SliderMoves, moves_along, spec_list_moves};
use crate::chess::pieces::sliders::{Direction, spec_ray_attacks, spec_repeat, spec_shift, walk};
use crate::chess::pieces::sliders::bishop::BishopMoves;
use crate::chess::pieces::sliders::queen::QueenMoves;
use crate::chess::pieces::sliders::rook::RookMoves;
use crate::chess::{BISHOP, KING, KNIGHT, QUEEN, ROOK};
use crate::game::{AttackDirections, Game};
use crate::chess::pieces::leapers::leaper::LeaperMoves;
use crate::chess::pieces::leapers::king::KingMoves;
use crate::chess::pieces::leapers::knight::KnightMoves;

verus! {

/// The row of a square, counted from the bottom.
pub open spec fn row(sq: int) -> int {
    sq / 8
}

/// The column of a square, counted from the left.
pub open spec fn col(sq: int) -> int {
    sq % 8
}

/// The shape of the chess board.
pub open spec fn chess_bounds() -> Bounds {
    Bounds { rows: 8, cols: 8 }
}

/// Whether `sq` is a square of the board.
pub open spec fn on_board(sq: int) -> bool {
    0 <= sq < 64
}

/// Whether a knight goes from `from` to `to`: two rows and one column, or
/// two columns and one row.
pub open spec fn knight_step(from: int, to: int) -> bool {
    let rows = row(to) - row(from);
    let cols = col(to) - col(from);
    on_board(from) && on_board(to) && {
        ||| ((rows == 2 || rows == -2) && (cols == 1 || cols == -1))
        ||| ((rows == 1 || rows == -1) && (cols == 2 || cols == -2))
    }
}

/// Whether a king goes from `from` to `to`: to another square at most one
/// row and one column away.
pub open spec fn king_step(from: int, to: int) -> bool {
    let rows = row(to) - row(from);
    let cols = col(to) - col(from);
    on_board(from) && on_board(to) && from != to && -1 <= rows <= 1 && -1 <= cols <= 1
}

/// What the edges of the chess board to depth one hold.
pub proof fn lemma_edges(edges: Edges, sq: int)
    requires
        edges.wf(chess_bounds(), 1),
    ensures
        edges.left.has(sq) == (on_board(sq) && col(sq) == 0),
        edges.right.has(sq) == (on_board(sq) && col(sq) == 7),
        edges.bottom.has(sq) == (on_board(sq) && row(sq) == 0),
        edges.top.has(sq) == (on_board(sq) && row(sq) == 7),
{
    broadcast use group_bitboard_has;

}

/// One step of a set of squares in each of the four directions, square by
/// square: a square is reached from its neighbour in the set, unless that
/// neighbour stands on the edge towards which the step goes.
pub proof fn lemma_steps(pos: BitBoard, edges: Edges, sq: int)
    requires
        edges.wf(chess_bounds(), 1),
    ensures
        pos.try_up(&edges, 1, 8).has(sq) == (on_board(sq) && pos.has(sq - 8)),
        pos.try_down(&edges, 1, 8).has(sq) == (on_board(sq) && pos.has(sq + 8)),
        pos.try_right(&edges, 1).has(sq) == (on_board(sq) && pos.has(sq - 1) && col(sq) != 0),
        pos.try_left(&edges, 1).has(sq) == (on_board(sq) && pos.has(sq + 1) && col(sq) != 7),
{
    broadcast use group_bitboard_has;

    reveal_with_fuel(BitBoard::spec_try_up, 2);
    reveal_with_fuel(BitBoard::spec_try_down, 2);
    reveal_with_fuel(BitBoard::spec_try_right, 2);
    reveal_with_fuel(BitBoard::spec_try_left, 2);
    lemma_edges(edges, sq - 8);
    lemma_edges(edges, sq + 8);
    lemma_edges(edges, sq - 1);
    lemma_edges(edges, sq + 1);
}

/// Two steps of a set of squares in each of the four directions.
pub proof fn lemma_two_steps(pos: BitBoard, edges: Edges, sq: int)
    requires
        edges.wf(chess_bounds(), 1),
    ensures
        pos.try_up(&edges, 2, 8).has(sq) == (on_board(sq) && pos.has(sq - 16)),
        pos.try_down(&edges, 2, 8).has(sq) == (on_board(sq) && pos.has(sq + 16)),
        pos.try_right(&edges, 2).has(sq) == (on_board(sq) && pos.has(sq - 2) && col(sq) >= 2),
        pos.try_left(&edges, 2).has(sq) == (on_board(sq) && pos.has(sq + 2) && col(sq) <= 5),
{
    broadcast use group_bitboard_has;

    reveal_with_fuel(BitBoard::spec_try_up, 3);
    reveal_with_fuel(BitBoard::spec_try_down, 3);
    reveal_with_fuel(BitBoard::spec_try_right, 3);
    reveal_with_fuel(BitBoard::spec_try_left, 3);
    lemma_steps(pos.try_up(&edges, 1, 8), edges, sq);
    lemma_steps(pos.try_down(&edges, 1, 8), edges, sq);
    lemma_steps(pos.try_right(&edges, 1), edges, sq);
    lemma_steps(pos.try_left(&edges, 1), edges, sq);
    lemma_steps(pos, edges, sq - 8);
    lemma_steps(pos, edges, sq + 8);
    lemma_steps(pos, edges, sq - 1);
    lemma_steps(pos, edges, sq + 1);
}

/// A square as its row and its column.
pub proof fn lemma_coords(sq: int)
    ensures
        sq == 8 * row(sq) + col(sq),
        0 <= col(sq) < 8,
        on_board(sq) == (0 <= row(sq) < 8),
{
}

/// The squares two columns from `from` in its row, and those two rows from
/// it in its column.
pub proof fn lemma_knight_parts(edges: Edges, from: u16, sq: int)
    requires
        edges.wf(chess_bounds(), 1),
        from < 64,
    ensures
        BitBoard::index(from).try_right(&edges, 2).or(
            BitBoard::index(from).try_left(&edges, 2),
        ).has(sq) == (on_board(sq) && row(sq) == row(from as int) && (col(sq) == col(from as int)
            + 2 || col(sq) == col(from as int) - 2)),
        BitBoard::index(from).try_up(&edges, 2, 8).or(BitBoard::index(from).try_down(&edges, 2, 8)).has(
            sq,
        ) == (on_board(sq) && col(sq) == col(from as int) && (row(sq) == row(from as int) + 2
            || row(sq) == row(from as int) - 2)),
{
    broadcast use group_bitboard_has;

    lemma_two_steps(BitBoard::index(from), edges, sq);
    lemma_coords(sq);
    lemma_coords(from as int);
}

/// The knight's table holds, for each square, the squares to which a
/// knight goes from it.
#[verifier::spinoff_prover]
#[verifier::rlimit(60)]
pub proof fn lemma_knight_leaps(edges: Edges, from: u16, to: int)
    requires
        edges.wf(chess_bounds(), 1),
        from < 64,
    ensures
        KnightMoves.spec_leaps(BitBoard::index(from), &edges).has(to) == knight_step(
            from as int,
            to,
        ),
{
    let pos = BitBoard::index(from);
    let horizontal = pos.try_right(&edges, 2).or(pos.try_left(&edges, 2));
    let vertical = pos.try_up(&edges, 2, 8).or(pos.try_down(&edges, 2, 8));
    let up = horizontal.try_up(&edges, 1, 8);
    let down = horizontal.try_down(&edges, 1, 8);
    let right = vertical.try_right(&edges, 1);
    let left = vertical.try_left(&edges, 1);
    lemma_steps(horizontal, edges, to);
    lemma_steps(vertical, edges, to);
    lemma_knight_parts(edges, from, to - 8);
    lemma_knight_parts(edges, from, to + 8);
    lemma_knight_parts(edges, from, to - 1);
    lemma_knight_parts(edges, from, to + 1);
    lemma_coords(to);
    lemma_coords(to - 8);
    lemma_coords(to + 8);
    lemma_coords(to - 1);
    lemma_coords(to + 1);
    lemma_coords(from as int);
    crate::bitboard::lemma_or_has(up, down, to);
    crate::bitboard::lemma_or_has(right, left, to);
    crate::bitboard::lemma_or_has(up.or(down), right.or(left), to);
}

/// The king's table holds, for each square, the squares next to it.
pub proof fn lemma_king_leaps(edges: Edges, from: u16, to: int)
    requires
        edges.wf(chess_bounds(), 1),
        from < 64,
    ensures
        KingMoves.spec_leaps(BitBoard::index(from), &edges).has(to) == king_step(from as int, to),
{
    broadcast use group_bitboard_has;

    let pos = BitBoard::index(from);
    let vertical = pos.or(pos.try_up(&edges, 1, 8)).or(pos.try_down(&edges, 1, 8));
    lemma_steps(vertical, edges, to);
    lemma_steps(pos, edges, to);
    lemma_steps(pos, edges, to - 1);
    lemma_steps(pos, edges, to + 1);
}

/// By how many rows a step in a direction goes up.
pub open spec fn row_step(dir: Direction) -> int {
    match dir {
        Direction::Up | Direction::UpRight | Direction::UpLeft => 1,
        Direction::Down | Direction::DownRight | Direction::DownLeft => -1,
        Direction::Left | Direction::Right => 0,
    }
}

/// By how many columns a step in a direction goes to the right.
pub open spec fn col_step(dir: Direction) -> int {
    match dir {
        Direction::Right | Direction::UpRight | Direction::DownRight => 1,
        Direction::Left | Direction::UpLeft | Direction::DownLeft => -1,
        Direction::Up | Direction::Down => 0,
    }
}

/// `steps` steps along a row or a column: `steps` where a step goes one on,
/// as many back where it goes one back, none where it does not move.
pub open spec fn scaled(step: int, steps: int) -> int {
    if step == 1 {
        steps
    } else if step == -1 {
        -steps
    } else {
        0
    }
}

/// How many steps in direction `dir` lead from `from` to `to`, if any
/// number of steps does.
pub open spec fn reach(dir: Direction, from: int, to: int) -> int {
    if row_step(dir) != 0 {
        scaled(row_step(dir), row(to) - row(from))
    } else {
        scaled(col_step(dir), col(to) - col(from))
    }
}

/// Whether `to` lies on the ray that runs from `from` in direction `dir`:
/// one step or more lead from `from` to `to` without leaving the board.
pub open spec fn on_ray(dir: Direction, from: int, to: int) -> bool {
    let steps = reach(dir, from, to);
    &&& on_board(from)
    &&& on_board(to)
    &&& steps >= 1
    &&& row(to) - row(from) == scaled(row_step(dir), steps)
    &&& col(to) - col(from) == scaled(col_step(dir), steps)
}

/// One step of a set of squares in a direction, square by square: a
/// square is reached from the square one step before it, if that is in the
/// set and the step does not leave the board.
pub proof fn lemma_shift(pos: BitBoard, dir: Direction, edges: Edges, sq: int)
    requires
        edges.wf(chess_bounds(), 1),
    ensures
        spec_shift(pos, dir, &edges).has(sq) == {
            let before = sq - 8 * row_step(dir) - col_step(dir);
            on_board(sq) && pos.has(before) && col(before) + col_step(dir) == col(sq)
        },
{
    lemma_coords(sq);
    lemma_coords(sq - 1);
    lemma_coords(sq + 1);
    match dir {
        Direction::Up | Direction::Down | Direction::Left | Direction::Right => {
            lemma_steps(pos, edges, sq);
            lemma_coords(sq - 8);
            lemma_coords(sq + 8);
        },
        Direction::UpRight => {
            lemma_steps(pos.try_up(&edges, 1, 8), edges, sq);
            lemma_steps(pos, edges, sq - 1);
            lemma_coords(sq - 9);
        },
        Direction::UpLeft => {
            lemma_steps(pos.try_up(&edges, 1, 8), edges, sq);
            lemma_steps(pos, edges, sq + 1);
            lemma_coords(sq - 7);
        },
        Direction::DownRight => {
            lemma_steps(pos.try_down(&edges, 1, 8), edges, sq);
            lemma_steps(pos, edges, sq - 1);
            lemma_coords(sq + 7);
        },
        Direction::DownLeft => {
            lemma_steps(pos.try_down(&edges, 1, 8), edges, sq);
            lemma_steps(pos, edges, sq + 1);
            lemma_coords(sq + 9);
        },
    }
}

/// The square one step from `from` in direction `dir`, if the step stays on
/// the board.
pub open spec fn neighbour(dir: Direction, from: int) -> Option<int> {
    let next = from + 8 * row_step(dir) + col_step(dir);
    if on_board(next) && col(from) + col_step(dir) == col(next) {
        Some(next)
    } else {
        None
    }
}

/// A step that stays on the board leads one row and one column on, as the
/// direction says; a step that does not would lead off the board.
pub proof fn lemma_neighbour(dir: Direction, from: int)
    requires
        on_board(from),
    ensures
        match neighbour(dir, from) {
            Some(next) => on_board(next) && row(next) == row(from) + row_step(dir) && col(next)
                == col(from) + col_step(dir),
            None => !(0 <= row(from) + row_step(dir) < 8 && 0 <= col(from) + col_step(dir) < 8),
        },
{
    lemma_coords(from);
    lemma_coords(from + 8 * row_step(dir) + col_step(dir));
}

/// One step from a single square leads to its neighbour, or nowhere.
pub proof fn lemma_shift_single(from: int, dir: Direction, edges: Edges)
    requires
        edges.wf(chess_bounds(), 1),
        on_board(from),
    ensures
        spec_shift(BitBoard::index(from as u16), dir, &edges) == match neighbour(dir, from) {
            Some(next) => BitBoard::index(next as u16),
            None => BitBoard::empty(),
        },
{
    broadcast use group_bitboard_has;

    let moved = spec_shift(BitBoard::index(from as u16), dir, &edges);
    let expected = match neighbour(dir, from) {
        Some(next) => BitBoard::index(next as u16),
        None => BitBoard::empty(),
    };
    assert forall|sq: int| 0 <= sq < 64 implies moved.has(sq) == expected.has(sq) by {
        lemma_shift(BitBoard::index(from as u16), dir, edges, sq);
    }
    lemma_same_squares(moved, expected);
}

/// How rows, columns and steps go together on a ray: a square on the ray
/// is the start moved by its number of steps; one step on from a square of
/// the ray, or from the start, is one step more; and a ray does not go on
/// beyond a square from which the next step leaves the board.
pub proof fn lemma_ray_steps(dir: Direction, start: int, at: int, sq: int)
    requires
        on_board(start),
        at == start || on_ray(dir, start, at),
    ensures
        0 <= reach(dir, start, at) < 8,
        neighbour(dir, at) matches Some(next) ==> on_ray(dir, start, next) && reach(
            dir,
            start,
            next,
        ) == reach(dir, start, at) + 1,
        neighbour(dir, at).is_none() && on_ray(dir, start, sq) ==> reach(dir, start, sq) <= reach(
            dir,
            start,
            at,
        ),
        neighbour(dir, at).is_some() && on_ray(dir, start, sq) && reach(dir, start, sq) == reach(
            dir,
            start,
            at,
        ) + 1 ==> Some(sq) == neighbour(dir, at),
{
    lemma_neighbour(dir, at);
    lemma_coords(start);
    lemma_coords(at);
    lemma_coords(sq);
    match neighbour(dir, at) {
        Some(next) => {
            lemma_coords(next);
        },
        None => {},
    }
    match dir {
        Direction::Up => {},
        Direction::Down => {},
        Direction::Left => {},
        Direction::Right => {},
        Direction::UpRight => {},
        Direction::UpLeft => {},
        Direction::DownRight => {},
        Direction::DownLeft => {},
    }
}

/// The walk from a square on the ray of `start`, with the squares of the
/// ray up to it gathered and enough steps left, gathers the ray.
pub proof fn lemma_walk(edges: Edges, dir: Direction, start: int, at: int, out: BitBoard, steps: nat)
    requires
        edges.wf(chess_bounds(), 1),
        on_board(start),
        at == start || on_ray(dir, start, at),
        forall|sq: int|
            out.has(sq) == (on_ray(dir, start, sq) && reach(dir, start, sq) <= reach(
                dir,
                start,
                at,
            )),
        steps + reach(dir, start, at) >= 8,
    ensures
        forall|sq: int|
            walk(out, BitBoard::index(at as u16), dir, &edges, steps).has(sq) == on_ray(
                dir,
                start,
                sq,
            ),
    decreases steps,
{
    let pos = BitBoard::index(at as u16);
    let progress = spec_shift(pos, dir, &edges);
    lemma_shift_single(at, dir, edges);
    lemma_ray_steps(dir, start, at, at);
    lemma_empty_iff(progress);
    match neighbour(dir, at) {
        Some(next) => {
            lemma_neighbour(dir, at);
            crate::bitboard::lemma_index_has(next as u16, next);
            assert(progress.has(next));
            let gathered = out.or(progress);
            let onward = progress.and_not(pos);
            assert forall|sq: int| 0 <= sq < 64 implies onward.has(sq) == BitBoard::index(
                next as u16,
            ).has(sq) by {
                crate::bitboard::lemma_and_not_has(progress, pos, sq);
                crate::bitboard::lemma_index_has(next as u16, sq);
                crate::bitboard::lemma_index_has(at as u16, sq);
            }
            lemma_same_squares(onward, BitBoard::index(next as u16));
            assert forall|sq: int|
                gathered.has(sq) == (on_ray(dir, start, sq) && reach(dir, start, sq) <= reach(
                    dir,
                    start,
                    next,
                )) by {
                crate::bitboard::lemma_or_has(out, progress, sq);
                crate::bitboard::lemma_index_has(next as u16, sq);
                lemma_ray_steps(dir, start, at, sq);
            }
            lemma_walk(edges, dir, start, next, gathered, (steps - 1) as nat);
        },
        None => {
            assert forall|sq: int| out.has(sq) == on_ray(dir, start, sq) by {
                lemma_ray_steps(dir, start, at, sq);
            }
            crate::bitboard::lemma_empty_has(0);
            assert(!progress.is_set());
        },
    }
}

/// The ray from a square in a direction holds the squares that lie one
/// step or more from it in that direction.
pub proof fn lemma_ray(edges: Edges, dir: Direction, from: u16, to: int)
    requires
        edges.wf(chess_bounds(), 1),
        from < 64,
    ensures
        spec_repeat(BitBoard::index(from), dir, &edges).has(to) == on_ray(dir, from as int, to),
{
    assert forall|sq: int|
        BitBoard::empty().has(sq) == (on_ray(dir, from as int, sq) && reach(dir, from as int, sq)
            <= reach(dir, from as int, from as int)) by {
        crate::bitboard::lemma_empty_has(sq);
    }
    lemma_walk(edges, dir, from as int, from as int, BitBoard::empty(), 64);
}

/// Whether the squares of a ray have higher numbers the farther they lie
/// from the start of the ray.
pub open spec fn ascends(dir: Direction) -> bool {
    8 * row_step(dir) + col_step(dir) > 0
}

/// The squares of a ray are numbered as they lie: on a ray that ascends a
/// square that lies farther has the higher number, on one that descends the
/// lower; and every square of the ray lies on the same side of its start.
pub proof fn lemma_ray_order(dir: Direction, from: int, a: int, b: int)
    requires
        on_ray(dir, from, a),
        on_ray(dir, from, b),
    ensures
        ascends(dir) ==> from < a && (reach(dir, from, a) <= reach(dir, from, b)) == (a <= b),
        !ascends(dir) ==> a < from && (reach(dir, from, a) <= reach(dir, from, b)) == (b <= a),
{
    lemma_coords(from);
    lemma_coords(a);
    lemma_coords(b);
}

/// From a square of a ray the ray goes on: the squares of the ray from
/// that square are those of the ray that lie farther from its start.
pub proof fn lemma_ray_beyond(dir: Direction, from: int, via: int, to: int)
    requires
        on_ray(dir, from, via),
    ensures
        on_ray(dir, via, to) == (on_ray(dir, from, to) && reach(dir, from, to) > reach(
            dir,
            from,
            via,
        )),
{
    lemma_coords(from);
    lemma_coords(via);
    lemma_coords(to);
}

/// Whether nothing stands in the way from `from` to `to` along a ray: no
/// blocker on the ray lies nearer to `from` than `to` does.
pub open spec fn clear(dir: Direction, from: int, to: int, blockers: BitBoard) -> bool {
    forall|b: int|
        #![trigger blockers.has(b)]
        blockers.has(b) && on_ray(dir, from, b) ==> reach(dir, from, b) >= reach(dir, from, to)
}

/// The table holds for each square its ray in direction `dir`.
pub open spec fn ray_table(table: Seq<BitBoard>, dir: Direction) -> bool {
    &&& table.len() == 64
    &&& forall|sq: int, x: int|
        #![trigger table[sq].has(x)]
        0 <= sq < 64 ==> table[sq].has(x) == on_ray(dir, sq, x)
}

/// A ray that is cut off at its nearest blocker holds the squares of the
/// ray to which nothing stands in the way; the blocker itself is one of
/// them.
pub proof fn lemma_ray_attacks(
    table: Seq<BitBoard>,
    dir: Direction,
    from: usize,
    blockers: BitBoard,
    to: int,
)
    requires
        ray_table(table, dir),
        from < 64,
    ensures
        spec_ray_attacks(table, from, table[from as int], blockers).has(to) == (on_ray(
            dir,
            from as int,
            to,
        ) && clear(dir, from as int, to, blockers)),
{
    let ray = table[from as int];
    let blocker = ray.and(blockers);
    let start = from as int;
    lemma_empty_iff(blocker);
    assert forall|b: int| blocker.has(b) == (blockers.has(b) && on_ray(dir, start, b)) by {
        crate::bitboard::lemma_and_has(ray, blockers, b);
    }
    if blocker.is_set() {
        let x = blocker.0;
        lemma_lowest(x);
        lemma_highest(x);
        let low = lowest(x) as int;
        let high = highest(x) as int;
        assert(blocker.has(low));
        assert(blocker.has(high));
        lemma_ray_order(dir, start, low, high);
        lemma_single_between(x, from as u64, lowest(x));
        lemma_single_between(x, from as u64, highest(x));
        let nearest = if ascends(dir) {
            low
        } else {
            high
        };
        assert((BitBoard::index(from as u16).0 < x) == ascends(dir));
        assert(spec_ray_attacks(table, from, ray, blockers) == ray.xor(table[nearest]));
        crate::bitboard::lemma_xor_has(ray, table[nearest], to);
        lemma_ray_beyond(dir, start, nearest, to);
        // No blocker on the ray lies nearer than the nearest.
        assert forall|b: int| blockers.has(b) && on_ray(dir, start, b) implies reach(
            dir,
            start,
            b,
        ) >= reach(dir, start, nearest) by {
            assert(blocker.has(b));
            lemma_ray_order(dir, start, nearest, b);
            if ascends(dir) {
                assert(!crate::bitboard::bits::bit(x, b as u64) || low <= b);
            } else {
                assert(!crate::bitboard::bits::bit(x, b as u64) || b <= high);
            }
        }
        if on_ray(dir, start, to) {
            if reach(dir, start, to) <= reach(dir, start, nearest) {
                assert(clear(dir, start, to, blockers));
            } else {
                assert(blockers.has(nearest));
                assert(!clear(dir, start, to, blockers));
            }
        }
    } else {
        assert(clear(dir, start, to, blockers)) by {
            assert forall|b: int|
                #![trigger blockers.has(b)]
                blockers.has(b) && on_ray(dir, start, b) implies reach(dir, start, b) >= reach(
                    dir,
                    start,
                    to,
                ) by {
                assert(blocker.has(b));
            }
        }
    }
}

/// Whether a slider with the first `count` of the given directions reaches
/// `to` from `from`: `to` lies on one of its rays, and nothing stands in the
/// way.
pub open spec fn slider_reaches(
    directions: Seq<Direction>,
    from: int,
    to: int,
    blockers: BitBoard,
    count: nat,
) -> bool {
    exists|d: int|
        #![trigger directions[d]]
        0 <= d < count && on_ray(directions[d], from, to) && clear(
            directions[d],
            from,
            to,
            blockers,
        )
}

/// What is found by walking the first `count` rays is what the slider
/// reaches along them.
pub proof fn lemma_moves_along(
    lists: Seq<AttackDirections>,
    directions: Seq<Direction>,
    from: usize,
    blockers: BitBoard,
    count: nat,
    to: int,
)
    requires
        count <= directions.len(),
        count <= lists.len(),
        forall|d: int| 0 <= d < count ==> ray_table(#[trigger] lists[d]@, directions[d]),
        from < 64,
    ensures
        moves_along(lists, from, blockers, count).has(to) == slider_reaches(
            directions,
            from as int,
            to,
            blockers,
            count,
        ),
    decreases count,
{
    if count == 0 {
        crate::bitboard::lemma_empty_has(to);
    } else {
        let last = (count - 1) as int;
        lemma_moves_along(lists, directions, from, blockers, (count - 1) as nat, to);
        assert(ray_table(lists[last]@, directions[last]));
        lemma_ray_attacks(lists[last]@, directions[last], from, blockers, to);
        let before = moves_along(lists, from, blockers, (count - 1) as nat);
        let along = spec_ray_attacks(lists[last]@, from, lists[last][from as int], blockers);
        crate::bitboard::lemma_or_has(before, along, to);
        if slider_reaches(directions, from as int, to, blockers, count) {
            let d = choose|d: int|
                #![trigger directions[d]]
                0 <= d < count && on_ray(directions[d], from as int, to) && clear(
                    directions[d],
                    from as int,
                    to,
                    blockers,
                );
            if d < last {
                assert(slider_reaches(directions, from as int, to, blockers, (count - 1) as nat));
            }
        }
        if before.has(to) {
            let d = choose|d: int|
                #![trigger directions[d]]
                0 <= d < count - 1 && on_ray(directions[d], from as int, to) && clear(
                    directions[d],
                    from as int,
                    to,
                    blockers,
                );
            assert(0 <= d < count && on_ray(directions[d], from as int, to));
        }
        if along.has(to) {
            assert(on_ray(directions[last], from as int, to));
        }
    }
}

impl Game {
    /// On the chess board, the lists of a slider hold its rays.
    pub proof fn lemma_slider_rays<S: SliderMoves>(&self, piece_index: int, moves: S, d: int)
        requires
            self.board_ok(),
            self.slider_ok(piece_index, moves),
            0 <= d < moves.directions().len(),
        ensures
            ray_table(self.lookup[piece_index][d]@, moves.directions()[d]),
    {
        let table = self.lookup[piece_index][d]@;
        let dir = moves.directions()[d];
        assert(self.bounds == chess_bounds());
        assert forall|sq: int, x: int|
            #![trigger table[sq].has(x)]
            0 <= sq < 64 implies table[sq].has(x) == on_ray(dir, sq, x) by {
            assert(self.lookup[piece_index][d][sq] == spec_repeat(
                BitBoard::index(sq as u16),
                dir,
                &self.edges[0],
            ));
            lemma_ray(self.edges[0], dir, sq as u16, x);
        }
    }

    /// On the chess board, what walking the rays of a slider finds from a
    /// square is what the slider reaches from it: the squares on its rays
    /// to which nothing stands in the way.
    pub proof fn lemma_slider_reach<S: SliderMoves>(
        &self,
        piece_index: int,
        moves: S,
        from: usize,
        blockers: BitBoard,
        to: int,
    )
        requires
            self.board_ok(),
            self.slider_ok(piece_index, moves),
            from < 64,
        ensures
            spec_list_moves(self.lookup[piece_index]@, from, blockers).has(to) == slider_reaches(
                moves.directions(),
                from as int,
                to,
                blockers,
                moves.directions().len(),
            ),
    {
        let lists = self.lookup[piece_index]@;
        let directions = moves.directions();
        assert forall|d: int| 0 <= d < directions.len() implies ray_table(
            #[trigger] lists[d]@,
            directions[d],
        ) by {
            self.lemma_slider_rays(piece_index, moves, d);
        }
        lemma_moves_along(lists, directions, from, blockers, directions.len(), to);
    }
}

/// Whether `q` is the square in which the ray from `from` ends.
pub open spec fn ends_ray(dir: Direction, from: int, q: int) -> bool {
    on_ray(dir, from, q) && forall|c: int|
        #![trigger on_ray(dir, from, c)]
        on_ray(dir, from, c) ==> reach(dir, from, c) <= reach(dir, from, q)
}

/// How many steps the board leaves room for from `from` in a direction.
pub open spec fn room(dir: Direction, from: int) -> int {
    let up = 7 - row(from);
    let down = row(from);
    let right = 7 - col(from);
    let left = col(from);
    let least = |a: int, b: int|
        if a <= b {
            a
        } else {
            b
        };
    match dir {
        Direction::Up => up,
        Direction::Down => down,
        Direction::Left => left,
        Direction::Right => right,
        Direction::UpRight => least(up, right),
        Direction::UpLeft => least(up, left),
        Direction::DownRight => least(down, right),
        Direction::DownLeft => least(down, left),
    }
}

/// The square in which the ray from `from` ends, where the ray has a
/// square.
pub open spec fn ray_end(dir: Direction, from: int) -> int {
    let steps = room(dir, from);
    match dir {
        Direction::Up => from + 8 * steps,
        Direction::Down => from - 8 * steps,
        Direction::Left => from - steps,
        Direction::Right => from + steps,
        Direction::UpRight => from + 9 * steps,
        Direction::UpLeft => from + 7 * steps,
        Direction::DownRight => from - 7 * steps,
        Direction::DownLeft => from - 9 * steps,
    }
}

/// The edge on which the ray from `from` ends.
pub open spec fn travel_edge(dir: Direction, from: int, edges: Edges) -> BitBoard {
    let up = 7 - row(from);
    let down = row(from);
    let right = 7 - col(from);
    let left = col(from);
    match dir {
        Direction::Up => edges.top,
        Direction::Down => edges.bottom,
        Direction::Left => edges.left,
        Direction::Right => edges.right,
        Direction::UpRight => if up <= right {
            edges.top
        } else {
            edges.right
        },
        Direction::UpLeft => if up <= left {
            edges.top
        } else {
            edges.left
        },
        Direction::DownRight => if down <= right {
            edges.bottom
        } else {
            edges.right
        },
        Direction::DownLeft => if down <= left {
            edges.bottom
        } else {
            edges.left
        },
    }
}

/// A ray that has a square ends in a square, which is the only square of
/// the ray on the edge on which the ray ends.
pub proof fn lemma_ray_end(edges: Edges, dir: Direction, from: int, any: int, x: int)
    requires
        edges.wf(chess_bounds(), 1),
        on_ray(dir, from, any),
    ensures
        on_ray(dir, from, ray_end(dir, from)),
        reach(dir, from, ray_end(dir, from)) == room(dir, from),
        on_ray(dir, from, x) ==> reach(dir, from, x) <= room(dir, from),
        (on_ray(dir, from, x) && travel_edge(dir, from, edges).has(x)) == (x == ray_end(dir, from)),
{
    lemma_coords(from);
    lemma_coords(any);
    lemma_coords(x);
    lemma_coords(ray_end(dir, from));
    lemma_edges(edges, x);
}

/// A square of a ray that stands on an edge of the board ends the ray,
/// unless the whole ray runs along that edge.
pub proof fn lemma_edge_square(edges: Edges, dir: Direction, from: int, q: int, c: int)
    requires
        edges.wf(chess_bounds(), 1),
        on_ray(dir, from, q),
        on_ray(dir, from, c),
    ensures
        edges.bottom.has(q) ==> reach(dir, from, c) <= reach(dir, from, q) || edges.bottom.has(c),
        edges.left.has(q) ==> reach(dir, from, c) <= reach(dir, from, q) || edges.left.has(c),
        edges.right.has(q) ==> reach(dir, from, c) <= reach(dir, from, q) || edges.right.has(c),
        edges.top.has(q) ==> reach(dir, from, c) <= reach(dir, from, q) || edges.top.has(c),
{
    lemma_coords(from);
    lemma_coords(q);
    lemma_coords(c);
    lemma_edges(edges, q);
    lemma_edges(edges, c);
}

/// Where a ray meets an edge of the board in one square only, that square
/// ends the ray.
pub proof fn lemma_single_edge_square(
    ray: BitBoard,
    edge: BitBoard,
    edges: Edges,
    dir: Direction,
    from: int,
    b: int,
)
    requires
        edges.wf(chess_bounds(), 1),
        edge == edges.bottom || edge == edges.left || edge == edges.right || edge == edges.top,
        forall|x: int| ray.has(x) == on_ray(dir, from, x),
        popcount(ray.and(edge).0) == 1,
        on_ray(dir, from, b),
        edge.has(b),
    ensures
        ends_ray(dir, from, b),
{
    let met = ray.and(edge);
    lemma_count_one(met);
    let q = choose|q: int| only_square(met, q);
    crate::bitboard::lemma_and_has(ray, edge, b);
    assert(met.has(b));
    assert forall|c: int| #![trigger on_ray(dir, from, c)] on_ray(dir, from, c) implies reach(
        dir,
        from,
        c,
    ) <= reach(dir, from, b) by {
        lemma_edge_square(edges, dir, from, b, c);
        if edge.has(c) {
            crate::bitboard::lemma_and_has(ray, edge, c);
            assert(met.has(c));
        }
    }
}

/// The squares that matter along a ray are those of the ray but the one in
/// which it ends.
pub proof fn lemma_relevant_of(ray: BitBoard, edges: Edges, dir: Direction, from: int, b: int)
    requires
        edges.wf(chess_bounds(), 1),
        forall|x: int| ray.has(x) == on_ray(dir, from, x),
        on_ray(dir, from, b),
        !ends_ray(dir, from, b),
    ensures
        relevant_of(ray, &edges).has(b),
{
    // The ray ends somewhere, and meets the edge there in one square.
    let end = ray_end(dir, from);
    let last = travel_edge(dir, from, edges);
    lemma_ray_end(edges, dir, from, b, end);
    assert forall|x: int| ray.and(last).has(x) == (x == end) by {
        crate::bitboard::lemma_and_has(ray, last, x);
        lemma_ray_end(edges, dir, from, b, x);
    }
    assert(only_square(ray.and(last), end));
    lemma_count_one(ray.and(last));
    assert(last == edges.bottom || last == edges.left || last == edges.right || last == edges.top);
    // Whichever edge is taken, `b` does not stand on it.
    if popcount(ray.and(edges.bottom).0) == 1 {
        if edges.bottom.has(b) {
            lemma_single_edge_square(ray, edges.bottom, edges, dir, from, b);
        }
        crate::bitboard::lemma_and_not_has(ray, edges.bottom, b);
    } else if popcount(ray.and(edges.left).0) == 1 {
        if edges.left.has(b) {
            lemma_single_edge_square(ray, edges.left, edges, dir, from, b);
        }
        crate::bitboard::lemma_and_not_has(ray, edges.left, b);
    } else if popcount(ray.and(edges.right).0) == 1 {
        if edges.right.has(b) {
            lemma_single_edge_square(ray, edges.right, edges, dir, from, b);
        }
        crate::bitboard::lemma_and_not_has(ray, edges.right, b);
    } else if popcount(ray.and(edges.top).0) == 1 {
        if edges.top.has(b) {
            lemma_single_edge_square(ray, edges.top, edges, dir, from, b);
        }
        crate::bitboard::lemma_and_not_has(ray, edges.top, b);
    }
}

/// The mask of the squares that matter holds what matters along each ray.
pub proof fn lemma_relevant_mask(rays: Seq<BitBoard>, edges: Edges, count: nat, d: int, b: int)
    requires
        0 <= d < count,
        relevant_of(rays[d], &edges).has(b),
    ensures
        relevant_mask(rays, &edges, count).has(b),
    decreases count,
{
    let before = relevant_mask(rays, &edges, (count - 1) as nat);
    crate::bitboard::lemma_or_has(before, relevant_of(rays[count - 1], &edges), b);
    if d < count - 1 {
        lemma_relevant_mask(rays, edges, (count - 1) as nat, d, b);
    }
}

/// Blockers on squares that do not matter change nothing: what a slider
/// reaches is the same with all blockers as with those on the squares of
/// its rays in which no ray ends.
pub proof fn lemma_relevant_blockers(
    directions: Seq<Direction>,
    from: int,
    to: int,
    blockers: BitBoard,
    mask: BitBoard,
    count: nat,
)
    requires
        count <= directions.len(),
        forall|d: int, b: int|
            #![trigger on_ray(directions[d], from, b)]
            0 <= d < count && on_ray(directions[d], from, b) && !ends_ray(directions[d], from, b)
                ==> mask.has(b),
    ensures
        slider_reaches(directions, from, to, blockers.and(mask), count) == slider_reaches(
            directions,
            from,
            to,
            blockers,
            count,
        ),
{
    let kept = blockers.and(mask);
    assert forall|d: int|
        0 <= d < count && on_ray(directions[d], from, to) implies clear(
            directions[d],
            from,
            to,
            kept,
        ) == clear(directions[d], from, to, blockers) by {
        let dir = directions[d];
        if clear(dir, from, to, kept) {
            assert forall|b: int|
                #![trigger blockers.has(b)]
                blockers.has(b) && on_ray(dir, from, b) implies reach(dir, from, b) >= reach(
                    dir,
                    from,
                    to,
                ) by {
                if reach(dir, from, b) < reach(dir, from, to) {
                    // `to` lies beyond `b`, so the ray does not end in `b`.
                    assert(!ends_ray(dir, from, b));
                    assert(on_ray(directions[d], from, b));
                    assert(mask.has(b));
                    crate::bitboard::lemma_and_has(blockers, mask, b);
                    assert(kept.has(b));
                }
            }
        }
        if clear(dir, from, to, blockers) {
            assert forall|b: int|
                #![trigger kept.has(b)]
                kept.has(b) && on_ray(dir, from, b) implies reach(dir, from, b) >= reach(
                    dir,
                    from,
                    to,
                ) by {
                crate::bitboard::lemma_and_has(blockers, mask, b);
                assert(blockers.has(b));
            }
        }
    }
    if slider_reaches(directions, from, to, kept, count) {
        let d = choose|d: int|
            #![trigger directions[d]]
            0 <= d < count && on_ray(directions[d], from, to) && clear(
                directions[d],
                from,
                to,
                kept,
            );
        assert(clear(directions[d], from, to, blockers));
    }
    if slider_reaches(directions, from, to, blockers, count) {
        let d = choose|d: int|
            #![trigger directions[d]]
            0 <= d < count && on_ray(directions[d], from, to) && clear(
                directions[d],
                from,
                to,
                blockers,
            );
        assert(clear(directions[d], from, to, kept));
    }
}

impl Game {
    /// On the chess board, what the magic table of a slider gives for a
    /// square and any blockers is what the slider reaches from the square:
    /// the squares on its rays to which nothing stands in the way.
    pub proof fn lemma_magic_reach<S: SliderMoves>(
        &self,
        piece_index: int,
        moves: S,
        from: usize,
        blockers: BitBoard,
        to: int,
    )
        requires
            self.board_ok(),
            self.magic_ok(piece_index, moves),
            from < 64,
        ensures
            self.magic_reach(piece_index, from, blockers).has(to) == slider_reaches(
                moves.directions(),
                from as int,
                to,
                blockers,
                moves.directions().len(),
            ),
    {
        let directions = moves.directions();
        let edges = self.edges[0];
        let entry = self.magics[piece_index][from as int];
        let mask = entry.mask;
        let rays = spec_rays(directions, BitBoard::index(from as u16), &edges);
        assert(self.bounds == chess_bounds());
        assert(mask == relevant_mask(rays, &edges, directions.len()));
        assert forall|d: int, b: int|
            #![trigger on_ray(directions[d], from as int, b)]
            0 <= d < directions.len() && on_ray(directions[d], from as int, b) && !ends_ray(
                directions[d],
                from as int,
                b,
            ) implies mask.has(b) by {
            assert forall|x: int| rays[d].has(x) == on_ray(directions[d], from as int, x) by {
                lemma_ray(edges, directions[d], from as u16, x);
            }
            lemma_relevant_of(rays[d], edges, directions[d], from as int, b);
            lemma_relevant_mask(rays, edges, directions.len(), d, b);
        }
        self.lemma_slider_reach(piece_index, moves, from, blockers.and(mask), to);
        lemma_relevant_blockers(directions, from as int, to, blockers, mask, directions.len());
    }
}

impl Game {
    /// What the tables of a game of chess hold: from each square, the
    /// knight's table the squares of a knight's leap and the king's table
    /// the squares next to it; the magic tables of bishop and rook, and the
    /// rays of the queen when they are walked, the squares on the rays of
    /// the piece to which no blocker stands in the way.
    pub proof fn lemma_chess_tables(&self, from: usize, blockers: BitBoard, to: int)
        requires
            self.chess_ok(),
            from < 64,
        ensures
            self.lookup[KNIGHT as int][0][from as int].has(to) == knight_step(from as int, to),
            self.lookup[KING as int][0][from as int].has(to) == king_step(from as int, to),
            self.magic_reach(BISHOP as int, from, blockers).has(to) == slider_reaches(
                BishopMoves.directions(),
                from as int,
                to,
                blockers,
                4,
            ),
            self.magic_reach(ROOK as int, from, blockers).has(to) == slider_reaches(
                RookMoves.directions(),
                from as int,
                to,
                blockers,
                4,
            ),
            spec_list_moves(self.lookup[QUEEN as int]@, from, blockers).has(to) == slider_reaches(
                QueenMoves.directions(),
                from as int,
                to,
                blockers,
                8,
            ),
    {
        assert(self.bounds == chess_bounds());
        assert(self.lookup[KNIGHT as int][0][from as int] == KnightMoves.spec_leaps(
            BitBoard::index(from as u16),
            &self.edges[0],
        ));
        assert(self.lookup[KING as int][0][from as int] == KingMoves.spec_leaps(
            BitBoard::index(from as u16),
            &self.edges[0],
        ));
        lemma_knight_leaps(self.edges[0], from as u16, to);
        lemma_king_leaps(self.edges[0], from as u16, to);
        self.lemma_magic_reach(BISHOP as int, BishopMoves, from, blockers, to);
        self.lemma_magic_reach(ROOK as int, RookMoves, from, blockers, to);
        self.lemma_slider_reach(QUEEN as int, QueenMoves, from, blockers, to);
    }
}

} // verus!
