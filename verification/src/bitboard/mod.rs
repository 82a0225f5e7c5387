//! Boards as sets of squares, one bit per square, square 0 in the bottom
//! left corner and squares numbered row by row.
pub mod big;
pub mod bitint;
pub mod bits;
pub mod rotate;
pub mod shifts;
pub mod sizedint;

use vstd::prelude::*;
use vstd::arithmetic::div_mod::lemma_fundamental_div_mod_converse;

pub use crate::bitboard::bitint::BitInt;

use crate::bitboard::bits::{
    bit, single, span, drop_lowest, lowest, highest, lemma_bit_logic, lemma_bit_single,
    lemma_bit_shl, lemma_bit_shr, lemma_bit_span, lemma_bit_drop_lowest, lemma_lowest,
    lemma_highest, lemma_bits_equal, lemma_bit_halve,
};

verus! {

/// A set of squares of a board of at most 64 squares.
#[derive(Clone, Copy, Debug, PartialEq, Eq, Structural)]
pub struct BitBoard(pub u64);

/// The shape of a board: how many rows and columns of squares it has.
#[derive(Clone, Copy, Debug)]
pub struct Bounds {
    pub rows: u16,
    pub cols: u16,
}

/// The border squares of a board, to some depth, one set per side and
/// their union.
#[derive(Clone, Copy, Debug)]
pub struct Edges {
    pub right: BitBoard,
    pub left: BitBoard,
    pub top: BitBoard,
    pub bottom: BitBoard,
    pub all: BitBoard,
}

/// Walks over the squares of a board from the lowest to the highest.
pub struct BitPositions(pub u64);

/// The number of set bits of a word.
pub open spec fn popcount(x: u64) -> nat
    decreases x,
{
    if x == 0 {
        0
    } else {
        (x % 2) as nat + popcount(x / 2)
    }
}

/// The set bits of `x` from bit `from` upwards, in ascending order.
pub open spec fn squares_from(x: u64, from: nat) -> Seq<u32>
    decreases 64 - from,
{
    if from >= 64 {
        Seq::empty()
    } else if bit(x, from as u64) {
        seq![from as u32] + squares_from(x, from + 1)
    } else {
        squares_from(x, from + 1)
    }
}

impl View for BitBoard {
    type V = Set<int>;

    open spec fn view(&self) -> Set<int> {
        Set::new(|sq: int| self.has(sq))
    }
}

impl Bounds {
    /// The shape of a board of so many rows and columns.
    pub fn new(rows: u16, cols: u16) -> (b: Bounds)
        ensures
            b.rows == rows,
            b.cols == cols,
    {
        Bounds { rows, cols }
    }

    /// The board fits into one word.
    pub open spec fn fits(self) -> bool {
        self.rows * self.cols <= 64
    }

    /// Edges are only drawn on boards of at least three rows and columns.
    pub open spec fn has_edges(self, depth: u16) -> bool {
        self.rows >= 3 && self.cols >= 3 && depth > 0
    }
}

impl BitPositions {
    /// A walk over the set bits of a word.
    pub fn new(bits: u64) -> (p: BitPositions)
        ensures
            p.0 == bits,
    {
        BitPositions(bits)
    }

    /// The squares that are still to come, in the order in which they come.
    pub open spec fn remaining(self) -> Seq<u32> {
        squares_from(self.0, 0)
    }

    /// Hands out the lowest square that is left and removes it.
    pub fn next(&mut self) -> (r: Option<u32>)
        ensures
            old(self).0 == 0 ==> r.is_none() && final(self).0 == 0,
            old(self).0 != 0 ==> r == Some(lowest(old(self).0) as u32) && final(self).0
                == drop_lowest(old(self).0) && final(self).0 < old(self).0,
            old(self).remaining() == match r {
                Some(sq) => seq![sq] + final(self).remaining(),
                None => Seq::empty(),
            },
            r matches Some(sq) ==> sq < 64 && bit(old(self).0, sq as u64),
    {
        if self.0 == 0 {
            proof {
                lemma_squares_empty(0);
            }
            None
        } else {
            let index = self.0.trailing_zeros();
            proof {
                lemma_lowest(self.0);
                lemma_bit_drop_lowest(self.0, lowest(self.0), 0);
                lemma_squares_step(self.0);
            }
            self.0 = self.0 & (self.0 - 1);
            Some(index)
        }
    }
}

/// A word without set bits has no squares.
pub proof fn lemma_squares_empty(from: nat)
    ensures
        squares_from(0, from) == Seq::<u32>::empty(),
    decreases 64 - from,
{
    if from < 64 {
        lemma_bit_logic(0, 0, from as u64);
        lemma_squares_empty(from + 1);
    }
}

/// Words that agree from bit `from` upwards have the same squares from there.
pub proof fn lemma_squares_agree(x: u64, y: u64, from: nat)
    requires
        forall|i: u64| from <= i < 64 ==> bit(x, i) == bit(y, i),
    ensures
        squares_from(x, from) == squares_from(y, from),
    decreases 64 - from,
{
    if from < 64 {
        lemma_squares_agree(x, y, from + 1);
    }
}

/// Bits that are not set are passed over.
pub proof fn lemma_squares_skip(x: u64, from: nat, to: nat)
    requires
        from <= to <= 64,
        forall|i: u64| from <= i < to ==> !bit(x, i),
    ensures
        squares_from(x, from) == squares_from(x, to),
    decreases to - from,
{
    if from < to {
        lemma_squares_skip(x, from + 1, to);
    }
}

/// The squares of a word are its lowest square, then those of the rest.
pub proof fn lemma_squares_step(x: u64)
    requires
        x != 0,
    ensures
        squares_from(x, 0) == seq![lowest(x) as u32] + squares_from(drop_lowest(x), 0),
{
    lemma_lowest(x);
    let low = lowest(x);
    let rest = drop_lowest(x);
    assert forall|i: u64| i < 64 implies bit(rest, i) == (bit(x, i) && i != low) by {
        lemma_bit_drop_lowest(x, low, i);
    }
    lemma_squares_skip(x, 0, low as nat);
    lemma_squares_skip(rest, 0, (low + 1) as nat);
    lemma_squares_agree(x, rest, (low + 1) as nat);
}

/// Every square that is listed is a set bit below 64, the list ascends, and
/// every set bit from `from` upwards is listed.
pub proof fn lemma_squares_sound(x: u64, from: nat)
    ensures
        forall|k: int|
            0 <= k < squares_from(x, from).len() ==> from <= (#[trigger] squares_from(x, from)[k])
                < 64 && bit(x, squares_from(x, from)[k] as u64),
        forall|j: int, k: int|
            0 <= j < k < squares_from(x, from).len() ==> squares_from(x, from)[j] < squares_from(
                x,
                from,
            )[k],
        forall|i: u64|
            from <= i < 64 && bit(x, i) ==> squares_from(x, from).contains(i as u32),
        squares_from(x, from).len() <= 64 - from || from >= 64,
    decreases 64 - from,
{
    if from < 64 {
        lemma_squares_sound(x, from + 1);
        let rest = squares_from(x, from + 1);
        let all = squares_from(x, from);
        if bit(x, from as u64) {
            assert(all == seq![from as u32] + rest);
            assert forall|i: u64| from <= i < 64 && bit(x, i) implies all.contains(i as u32) by {
                if i == from {
                    assert(all[0] == i as u32);
                } else {
                    let k = choose|k: int| 0 <= k < rest.len() && rest[k] == i as u32;
                    assert(all[k + 1] == i as u32);
                }
            }
            assert forall|j: int, k: int| 0 <= j < k < all.len() implies all[j] < all[k] by {
                if j > 0 {
                    assert(all[j] == rest[j - 1]);
                }
                assert(all[k] == rest[k - 1]);
            }
        }
    }
}

/// `u64::count_ones`: the number of bits of the word that are set.
pub assume_specification[ u64::count_ones ](x: u64) -> (r: u32)
    ensures
        r == popcount(x),
;

impl BitBoard {
    /// Whether square `sq` belongs to the set.
    pub open spec fn has(self, sq: int) -> bool {
        0 <= sq < 64 && bit(self.0, sq as u64)
    }

    /// The squares of the set in ascending order.
    pub open spec fn squares(self) -> Seq<u32> {
        squares_from(self.0, 0)
    }

    /// The squares of either set.
    pub open spec fn spec_or(self, board: BitBoard) -> BitBoard {
        BitBoard(self.0 | board.0)
    }

    /// The squares of one of the sets but not of both.
    pub open spec fn spec_xor(self, board: BitBoard) -> BitBoard {
        BitBoard(self.0 ^ board.0)
    }

    /// The squares of both sets.
    pub open spec fn spec_and(self, board: BitBoard) -> BitBoard {
        BitBoard(self.0 & board.0)
    }

    /// The squares that are not in the set.
    pub open spec fn spec_not(self) -> BitBoard {
        BitBoard(!self.0)
    }

    /// The squares of the set that are not in `board`.
    pub open spec fn spec_and_not(self, board: BitBoard) -> BitBoard {
        BitBoard(self.0 & !board.0)
    }

    /// Every square moved `tiles` squares up in number.
    pub open spec fn spec_right(self, tiles: usize) -> BitBoard {
        BitBoard(self.0 << (tiles as u64))
    }

    /// Every square moved `tiles` squares down in number.
    pub open spec fn spec_left(self, tiles: usize) -> BitBoard {
        BitBoard(self.0 >> (tiles as u64))
    }

    /// Every square moved `tiles` rows up on a board of `cols` columns:
    /// `tiles * cols` squares up in number.
    pub open spec fn spec_up(self, tiles: usize, cols: u16) -> BitBoard {
        BitBoard(self.0 << ((tiles * cols) as u64))
    }

    /// Every square moved `tiles` rows down on a board of `cols` columns:
    /// `tiles * cols` squares down in number.
    pub open spec fn spec_down(self, tiles: usize, cols: u16) -> BitBoard {
        BitBoard(self.0 >> ((tiles * cols) as u64))
    }

    /// The set without squares.
    pub open spec fn spec_empty() -> BitBoard {
        BitBoard(0)
    }

    /// The set that holds the one square `index`.
    pub open spec fn spec_index(index: u16) -> BitBoard {
        BitBoard(single(index as u64))
    }

    /// Whether the set holds a square.
    pub open spec fn spec_is_set(self) -> bool {
        self.0 != 0
    }

    /// Whether the set holds no square.
    pub open spec fn spec_is_empty(self) -> bool {
        self.0 == 0
    }

    /// The set moved `tiles` times one column to the right, losing at each
    /// step what stands on the right edge.
    pub open spec fn spec_try_right(self, edges: &Edges, tiles: usize) -> BitBoard
        decreases tiles,
    {
        if tiles == 0 {
            self
        } else {
            self.spec_try_right(edges, (tiles - 1) as usize).spec_and_not(edges.right).spec_right(1)
        }
    }

    /// The set moved `tiles` times one column to the left, losing at each
    /// step what stands on the left edge.
    pub open spec fn spec_try_left(self, edges: &Edges, tiles: usize) -> BitBoard
        decreases tiles,
    {
        if tiles == 0 {
            self
        } else {
            self.spec_try_left(edges, (tiles - 1) as usize).spec_and_not(edges.left).spec_left(1)
        }
    }

    /// The set moved `tiles` times one row up on a board of `cols`
    /// columns, losing at each step what stands on the top edge.
    pub open spec fn spec_try_up(self, edges: &Edges, tiles: usize, cols: u16) -> BitBoard
        decreases tiles,
    {
        if tiles == 0 {
            self
        } else {
            self.spec_try_up(edges, (tiles - 1) as usize, cols).spec_and_not(edges.top).spec_up(
                1,
                cols,
            )
        }
    }

    /// The set moved `tiles` times one row down on a board of `cols`
    /// columns, losing at each step what stands on the bottom edge.
    pub open spec fn spec_try_down(self, edges: &Edges, tiles: usize, cols: u16) -> BitBoard
        decreases tiles,
    {
        if tiles == 0 {
            self
        } else {
            self.spec_try_down(edges, (tiles - 1) as usize, cols).spec_and_not(
                edges.bottom,
            ).spec_down(1, cols)
        }
    }

    /// The squares of either set.
    #[verifier::when_used_as_spec(spec_or)]
    pub fn or(self, board: BitBoard) -> (r: BitBoard)
        ensures
            r == self.spec_or(board),
    {
        BitBoard(self.0 | board.0)
    }

    /// The squares of one of the sets but not of both.
    #[verifier::when_used_as_spec(spec_xor)]
    pub fn xor(self, board: BitBoard) -> (r: BitBoard)
        ensures
            r == self.spec_xor(board),
    {
        BitBoard(self.0 ^ board.0)
    }

    /// The squares of both sets.
    #[verifier::when_used_as_spec(spec_and)]
    pub fn and(self, board: BitBoard) -> (r: BitBoard)
        ensures
            r == self.spec_and(board),
    {
        BitBoard(self.0 & board.0)
    }

    /// The squares of the set that are not in `board`.
    #[verifier::when_used_as_spec(spec_and_not)]
    pub fn and_not(self, board: BitBoard) -> (r: BitBoard)
        ensures
            r == self.spec_and_not(board),
    {
        self.and(board.not())
    }

    /// The squares that are not in the set.
    #[verifier::when_used_as_spec(spec_not)]
    pub fn not(self) -> (r: BitBoard)
        ensures
            r == self.spec_not(),
    {
        BitBoard(!self.0)
    }

    /// Whether the word of the set is the larger number.
    pub fn gt(self, board: BitBoard) -> (r: bool)
        ensures
            r == (self.0 > board.0),
    {
        self.0 > board.0
    }

    /// Whether the word of the set is the smaller number.
    pub fn lt(self, board: BitBoard) -> (r: bool)
        ensures
            r == (self.0 < board.0),
    {
        self.0 < board.0
    }

    /// Moves every square `tiles` columns to the right; squares pushed past
    /// square 63 are lost.
    #[verifier::when_used_as_spec(spec_right)]
    pub fn right(self, tiles: usize) -> (r: BitBoard)
        requires
            tiles < 64,
        ensures
            r == self.spec_right(tiles),
    {
        BitBoard(self.0 << (tiles as u64))
    }

    /// Moves every square `tiles` columns to the left; squares pushed below
    /// square 0 are lost.
    #[verifier::when_used_as_spec(spec_left)]
    pub fn left(self, tiles: usize) -> (r: BitBoard)
        requires
            tiles < 64,
        ensures
            r == self.spec_left(tiles),
    {
        BitBoard(self.0 >> (tiles as u64))
    }

    /// Moves every square `tiles` rows up on a board of `cols` columns,
    /// that is `tiles * cols` squares up in number; squares pushed past
    /// square 63 are lost.
    #[verifier::when_used_as_spec(spec_up)]
    pub fn up(self, tiles: usize, cols: u16) -> (r: BitBoard)
        requires
            tiles * cols < 64,
        ensures
            r == self.spec_up(tiles, cols),
            r.0 == self.0 << ((tiles * cols) as u64),
    {
        BitBoard(self.0 << ((tiles * (cols as usize)) as u64))
    }

    /// Moves every square `tiles` rows down on a board of `cols` columns,
    /// that is `tiles * cols` squares down in number; squares pushed below
    /// square 0 are lost.
    #[verifier::when_used_as_spec(spec_down)]
    pub fn down(self, tiles: usize, cols: u16) -> (r: BitBoard)
        requires
            tiles * cols < 64,
        ensures
            r == self.spec_down(tiles, cols),
            r.0 == self.0 >> ((tiles * cols) as u64),
    {
        BitBoard(self.0 >> ((tiles * (cols as usize)) as u64))
    }

    /// The set moved `tiles` times one column to the right, losing at each
    /// step what stands on the right edge.
    #[verifier::when_used_as_spec(spec_try_right)]
    pub fn try_right(self, edges: &Edges, tiles: usize) -> (r: BitBoard)
        ensures
            r == self.spec_try_right(edges, tiles),
    {
        let mut out = self;
        let mut done: usize = 0;
        while done < tiles
            invariant
                done <= tiles,
                out == self.spec_try_right(edges, done),
            decreases tiles - done,
        {
            out = out.and_not(edges.right).right(1);
            done = done + 1;
        }
        out
    }

    /// The set moved `tiles` times one column to the left, losing at each
    /// step what stands on the left edge.
    #[verifier::when_used_as_spec(spec_try_left)]
    pub fn try_left(self, edges: &Edges, tiles: usize) -> (r: BitBoard)
        ensures
            r == self.spec_try_left(edges, tiles),
    {
        let mut out = self;
        let mut done: usize = 0;
        while done < tiles
            invariant
                done <= tiles,
                out == self.spec_try_left(edges, done),
            decreases tiles - done,
        {
            out = out.and_not(edges.left).left(1);
            done = done + 1;
        }
        out
    }

    /// The set moved `tiles` times one row up on a board of `cols`
    /// columns, losing at each step what stands on the top edge.
    #[verifier::when_used_as_spec(spec_try_up)]
    pub fn try_up(self, edges: &Edges, tiles: usize, cols: u16) -> (r: BitBoard)
        requires
            cols < 64,
        ensures
            r == self.spec_try_up(edges, tiles, cols),
    {
        let mut out = self;
        let mut done: usize = 0;
        while done < tiles
            invariant
                done <= tiles,
                cols < 64,
                out == self.spec_try_up(edges, done, cols),
            decreases tiles - done,
        {
            out = out.and_not(edges.top).up(1, cols);
            done = done + 1;
        }
        out
    }

    /// The set moved `tiles` times one row down on a board of `cols`
    /// columns, losing at each step what stands on the bottom edge.
    #[verifier::when_used_as_spec(spec_try_down)]
    pub fn try_down(self, edges: &Edges, tiles: usize, cols: u16) -> (r: BitBoard)
        requires
            cols < 64,
        ensures
            r == self.spec_try_down(edges, tiles, cols),
    {
        let mut out = self;
        let mut done: usize = 0;
        while done < tiles
            invariant
                done <= tiles,
                cols < 64,
                out == self.spec_try_down(edges, done, cols),
            decreases tiles - done,
        {
            out = out.and_not(edges.bottom).down(1, cols);
            done = done + 1;
        }
        out
    }

    /// The set without squares.
    #[verifier::when_used_as_spec(spec_empty)]
    pub fn empty() -> (r: BitBoard)
        ensures
            r == BitBoard::spec_empty(),
    {
        BitBoard(0)
    }

    /// The set that holds the one square `index`.
    #[verifier::when_used_as_spec(spec_index)]
    pub fn index(index: u16) -> (r: BitBoard)
        requires
            index < 64,
        ensures
            r == BitBoard::spec_index(index),
    {
        BitBoard(1u64 << (index as u64))
    }

    /// How many squares the set holds.
    pub fn count(self) -> (r: u32)
        ensures
            r == popcount(self.0),
            r == self.squares().len(),
    {
        proof {
            lemma_popcount_squares(self.0);
        }
        self.0.count_ones()
    }

    /// Whether the set holds a square.
    #[verifier::when_used_as_spec(spec_is_set)]
    pub fn is_set(self) -> (r: bool)
        ensures
            r == self.spec_is_set(),
    {
        self.0 != 0
    }

    /// Whether the set holds no square.
    #[verifier::when_used_as_spec(spec_is_empty)]
    pub fn is_empty(self) -> (r: bool)
        ensures
            r == self.spec_is_empty(),
    {
        self.0 == 0
    }

    /// A walk over the squares of the set, from the lowest to the highest.
    pub fn iter(self) -> (r: BitPositions)
        ensures
            r.0 == self.0,
            r.remaining() == self.squares(),
    {
        BitPositions::new(self.0)
    }

    /// The lowest square of a set that is not empty.
    pub fn bitscan_forward(self) -> (r: u32)
        requires
            self.is_set(),
        ensures
            r == lowest(self.0),
            self.has(r as int),
            forall|sq: int| self.has(sq) ==> r <= sq,
    {
        proof {
            lemma_lowest(self.0);
            assert forall|sq: int| self.has(sq) implies lowest(self.0) <= sq by {
                if sq < lowest(self.0) {
                    assert(!bit(self.0, sq as u64));
                }
            }
        }
        self.0.trailing_zeros()
    }

    /// The highest square of a set that is not empty.
    pub fn bitscan_backward(self) -> (r: u32)
        requires
            self.is_set(),
        ensures
            r == highest(self.0),
            self.has(r as int),
            forall|sq: int| self.has(sq) ==> sq <= r,
    {
        proof {
            lemma_highest(self.0);
            vstd::std_specs::bits::axiom_u64_leading_zeros(self.0);
            assert forall|sq: int| self.has(sq) implies sq <= highest(self.0) by {
                if sq > highest(self.0) {
                    assert(!bit(self.0, sq as u64));
                }
            }
        }
        63 - self.0.leading_zeros()
    }
}

/// The row of square `sq` on a board of `cols` columns.
pub open spec fn row_of(sq: int, cols: int) -> int {
    sq / cols
}

/// The column of square `sq` on a board of `cols` columns.
pub open spec fn col_of(sq: int, cols: int) -> int {
    sq % cols
}

/// Whether `sq` is a square of the board in one of the rows `rows.0 .. rows.1`
/// and one of the columns `cols.0 .. cols.1`.
pub open spec fn in_block(bounds: Bounds, rows: (int, int), cols: (int, int), sq: int) -> bool {
    &&& 0 <= sq < bounds.rows * bounds.cols
    &&& rows.0 <= row_of(sq, bounds.cols as int) < rows.1
    &&& cols.0 <= col_of(sq, bounds.cols as int) < cols.1
}

/// Whether `sq` lies in one of the `depth` leftmost columns.
pub open spec fn in_left_edge(bounds: Bounds, depth: u16, sq: int) -> bool {
    &&& bounds.has_edges(depth)
    &&& 0 <= sq < bounds.rows * bounds.cols
    &&& col_of(sq, bounds.cols as int) < depth
}

/// Whether `sq` lies in one of the `depth` rightmost columns.
pub open spec fn in_right_edge(bounds: Bounds, depth: u16, sq: int) -> bool {
    &&& bounds.has_edges(depth)
    &&& 0 <= sq < bounds.rows * bounds.cols
    &&& col_of(sq, bounds.cols as int) + depth >= bounds.cols
}

/// Whether `sq` lies in one of the `depth` lowest rows.
pub open spec fn in_bottom_edge(bounds: Bounds, depth: u16, sq: int) -> bool {
    &&& bounds.has_edges(depth)
    &&& 0 <= sq < bounds.rows * bounds.cols
    &&& row_of(sq, bounds.cols as int) < depth
}

/// Whether `sq` lies in one of the `depth` highest rows.
pub open spec fn in_top_edge(bounds: Bounds, depth: u16, sq: int) -> bool {
    &&& bounds.has_edges(depth)
    &&& 0 <= sq < bounds.rows * bounds.cols
    &&& row_of(sq, bounds.cols as int) + depth >= bounds.rows
}

/// A square is fixed by its row and its column.
pub proof fn lemma_square_coords(cols: int, row: int, col: int)
    requires
        0 <= col < cols,
        0 <= row,
    ensures
        row_of(row * cols + col, cols) == row,
        col_of(row * cols + col, cols) == col,
        forall|sq: int|
            0 <= sq && #[trigger] row_of(sq, cols) == row && col_of(sq, cols) == col ==> sq == row
                * cols + col,
{
    lemma_fundamental_div_mod_converse(row * cols + col, cols, row, col);
    assert forall|sq: int|
        0 <= sq && #[trigger] row_of(sq, cols) == row && col_of(sq, cols) == col implies sq == row
            * cols + col by {
        vstd::arithmetic::div_mod::lemma_fundamental_div_mod(sq, cols);
        assert(cols * (sq / cols) == (sq / cols) * cols) by (nonlinear_arith);
    }
}

/// The squares of a board are those whose row is one of the board's.
pub proof fn lemma_square_rows(bounds: Bounds, sq: int)
    requires
        bounds.cols > 0,
        0 <= sq,
    ensures
        sq < bounds.rows * bounds.cols <==> row_of(sq, bounds.cols as int) < bounds.rows,
        0 <= row_of(sq, bounds.cols as int),
        0 <= col_of(sq, bounds.cols as int) < bounds.cols,
{
    let cols = bounds.cols as int;
    let rows = bounds.rows as int;
    vstd::arithmetic::div_mod::lemma_fundamental_div_mod(sq, cols);
    let r = sq / cols;
    assert(cols * r == r * cols) by (nonlinear_arith);
    if r < rows {
        assert((r + 1) * cols <= rows * cols) by (nonlinear_arith)
            requires
                r + 1 <= rows,
                cols > 0,
        ;
        assert((r + 1) * cols == r * cols + cols) by (nonlinear_arith);
    } else {
        assert(rows * cols <= r * cols) by (nonlinear_arith)
            requires
                rows <= r,
                cols > 0,
        ;
    }
    assert(0 <= r) by (nonlinear_arith)
        requires
            r == sq / cols,
            0 <= sq,
            cols > 0,
    ;
}

/// The squares of the rows `rows.0 .. rows.1` and columns `cols.0 .. cols.1`.
fn block(bounds: Bounds, rows: (u16, u16), cols: (u16, u16)) -> (r: BitBoard)
    requires
        bounds.fits(),
        rows.0 <= rows.1 <= bounds.rows,
        cols.0 <= cols.1 <= bounds.cols,
    ensures
        forall|sq: int|
            r.has(sq) == in_block(
                bounds,
                (rows.0 as int, rows.1 as int),
                (cols.0 as int, cols.1 as int),
                sq,
            ),
{
    broadcast use group_bitboard_has;

    let ghost width = bounds.cols as int;
    let ghost rs = (rows.0 as int, rows.1 as int);
    let ghost cs = (cols.0 as int, cols.1 as int);
    let mut mask = BitBoard::empty();
    let mut row = rows.0;
    while row < rows.1
        invariant
            bounds.fits(),
            rows.0 <= row <= rows.1 <= bounds.rows,
            cols.0 <= cols.1 <= bounds.cols,
            width == bounds.cols,
            rs == (rows.0 as int, rows.1 as int),
            cs == (cols.0 as int, cols.1 as int),
            forall|sq: int| mask.has(sq) == in_block(bounds, (rs.0, row as int), cs, sq),
        decreases rows.1 - row,
    {
        let mut col = cols.0;
        while col < cols.1
            invariant
                bounds.fits(),
                rows.0 <= row < rows.1 <= bounds.rows,
                cols.0 <= col <= cols.1 <= bounds.cols,
                width == bounds.cols,
                rs == (rows.0 as int, rows.1 as int),
                cs == (cols.0 as int, cols.1 as int),
                forall|sq: int|
                    mask.has(sq) == (in_block(bounds, (rs.0, row as int), cs, sq) || in_block(
                        bounds,
                        (row as int, row + 1),
                        (cs.0, col as int),
                        sq,
                    )),
            decreases cols.1 - col,
        {
            proof {
                assert((row + 1) * width <= bounds.rows * width) by (nonlinear_arith)
                    requires
                        row + 1 <= bounds.rows,
                        width >= 0,
                ;
                assert((row + 1) * width == row * width + width) by (nonlinear_arith);
                assert(0 <= row * width) by (nonlinear_arith)
                    requires
                        row >= 0,
                        width >= 0,
                ;
            }
            let idx = row * bounds.cols + col;
            let ghost before = mask;
            mask = mask.or(BitBoard::index(idx));
            proof {
                broadcast use group_bitboard_has;

                lemma_square_coords(width, row as int, col as int);
                assert forall|sq: int|
                    mask.has(sq) == (in_block(bounds, (rs.0, row as int), cs, sq) || in_block(
                        bounds,
                        (row as int, row + 1),
                        (cs.0, col + 1),
                        sq,
                    )) by {
                    assert(mask.has(sq) == (before.has(sq) || sq == idx));
                    if 0 <= sq {
                        lemma_square_rows(bounds, sq);
                        if row_of(sq, width) == row && col_of(sq, width) == col {
                            assert(sq == idx);
                        }
                    }
                }
            }
            col = col + 1;
        }
        row = row + 1;
    }
    mask
}

impl BitBoard {
    /// The `depth` leftmost columns of the board; nothing on a board of
    /// fewer than three rows or columns.
    pub fn edges_left(bounds: Bounds, depth: u16) -> (r: BitBoard)
        requires
            bounds.fits(),
        ensures
            forall|sq: int| r.has(sq) == in_left_edge(bounds, depth, sq),
    {
        broadcast use group_bitboard_has;

        if bounds.rows < 3 || bounds.cols < 3 || depth == 0 {
            return BitBoard::empty();
        }
        let deep = if depth < bounds.cols {
            depth
        } else {
            bounds.cols
        };
        let r = block(bounds, (0, bounds.rows), (0, deep));
        proof {
            assert forall|sq: int| r.has(sq) == in_left_edge(bounds, depth, sq) by {
                if 0 <= sq {
                    lemma_square_rows(bounds, sq);
                }
            }
        }
        r
    }

    /// The `depth` rightmost columns of the board; nothing on a board of
    /// fewer than three rows or columns.
    pub fn edges_right(bounds: Bounds, depth: u16) -> (r: BitBoard)
        requires
            bounds.fits(),
        ensures
            forall|sq: int| r.has(sq) == in_right_edge(bounds, depth, sq),
    {
        broadcast use group_bitboard_has;

        if bounds.rows < 3 || bounds.cols < 3 || depth == 0 {
            return BitBoard::empty();
        }
        let deep = if depth < bounds.cols {
            depth
        } else {
            bounds.cols
        };
        let r = block(bounds, (0, bounds.rows), (bounds.cols - deep, bounds.cols));
        proof {
            assert forall|sq: int| r.has(sq) == in_right_edge(bounds, depth, sq) by {
                if 0 <= sq {
                    lemma_square_rows(bounds, sq);
                }
            }
        }
        r
    }

    /// The `depth` lowest rows of the board; nothing on a board of fewer
    /// than three rows or columns.
    pub fn edges_down(bounds: Bounds, depth: u16) -> (r: BitBoard)
        requires
            bounds.fits(),
        ensures
            forall|sq: int| r.has(sq) == in_bottom_edge(bounds, depth, sq),
    {
        broadcast use group_bitboard_has;

        if bounds.rows < 3 || bounds.cols < 3 || depth == 0 {
            return BitBoard::empty();
        }
        let deep = if depth < bounds.rows {
            depth
        } else {
            bounds.rows
        };
        let r = block(bounds, (0, deep), (0, bounds.cols));
        proof {
            assert forall|sq: int| r.has(sq) == in_bottom_edge(bounds, depth, sq) by {
                if 0 <= sq {
                    lemma_square_rows(bounds, sq);
                }
            }
        }
        r
    }

    /// The `depth` highest rows of the board; nothing on a board of fewer
    /// than three rows or columns.
    pub fn edges_up(bounds: Bounds, depth: u16) -> (r: BitBoard)
        requires
            bounds.fits(),
        ensures
            forall|sq: int| r.has(sq) == in_top_edge(bounds, depth, sq),
    {
        broadcast use group_bitboard_has;

        if bounds.rows < 3 || bounds.cols < 3 || depth == 0 {
            return BitBoard::empty();
        }
        let deep = if depth < bounds.rows {
            depth
        } else {
            bounds.rows
        };
        let r = block(bounds, (bounds.rows - deep, bounds.rows), (0, bounds.cols));
        proof {
            assert forall|sq: int| r.has(sq) == in_top_edge(bounds, depth, sq) by {
                if 0 <= sq {
                    lemma_square_rows(bounds, sq);
                }
            }
        }
        r
    }

    /// The four borders of the board to the given depth, and their union.
    pub fn edges(bounds: Bounds, depth: u16) -> (e: Edges)
        requires
            bounds.fits(),
        ensures
            e.wf(bounds, depth),
    {
        let left = Self::edges_left(bounds, depth);
        let right = Self::edges_right(bounds, depth);
        let top = Self::edges_up(bounds, depth);
        let bottom = Self::edges_down(bounds, depth);
        let all = left.or(right).or(top).or(bottom);

        Edges { left, right, top, bottom, all }
    }

    /// The squares strictly between `start` and `end`, whichever is larger.
    pub open spec fn spec_between(start: usize, end: usize) -> BitBoard {
        let lo = if start > end {
            end
        } else {
            start
        };
        let hi = if start > end {
            start
        } else {
            end
        };
        if hi - lo <= 1 {
            BitBoard(0)
        } else {
            BitBoard(span((lo + 1) as u64, (hi - lo - 1) as u64))
        }
    }

    /// The squares from `start` to `end`, both included, whichever is larger.
    pub open spec fn spec_between_inclusive(start: usize, end: usize) -> BitBoard {
        let lo = if start > end {
            end
        } else {
            start
        };
        let hi = if start > end {
            start
        } else {
            end
        };
        if hi - lo + 1 == 64 {
            BitBoard(!0u64)
        } else {
            BitBoard(span(lo as u64, (hi - lo + 1) as u64))
        }
    }

    /// The squares strictly between `start` and `end`, whichever is larger.
    #[verifier::when_used_as_spec(spec_between)]
    pub fn between(start: usize, end: usize) -> (r: BitBoard)
        requires
            start < 64,
            end < 64,
        ensures
            r == BitBoard::spec_between(start, end),
            forall|sq: int| r.has(sq) == (start < sq < end || end < sq < start),
    {
        broadcast use group_bitboard_has;

        let (lo, hi) = if start > end {
            (end, start)
        } else {
            (start, end)
        };
        if hi - lo <= 1 {
            return BitBoard::empty();
        }
        let len = hi - lo - 1;
        proof {
            let m = BitBoard(span((lo + 1) as u64, len as u64));
            assert forall|sq: int| 0 <= sq < 64 implies #[trigger] m.has(sq) == (lo < sq < hi) by {
                lemma_bit_span((lo + 1) as u64, len as u64, sq as u64);
            }
            lemma_bit_span((lo + 1) as u64, len as u64, 0);
        }
        let mask = (1u64 << (len as u64)) - 1;
        BitBoard(mask << ((lo + 1) as u64))
    }

    /// The squares from `start` to `end`, both included, whichever is larger.
    #[verifier::when_used_as_spec(spec_between_inclusive)]
    pub fn between_inclusive(start: usize, end: usize) -> (r: BitBoard)
        requires
            start < 64,
            end < 64,
        ensures
            r == BitBoard::spec_between_inclusive(start, end),
            forall|sq: int| r.has(sq) == (start <= sq <= end || end <= sq <= start),
    {
        broadcast use group_bitboard_has;

        let (lo, hi) = if start > end {
            (end, start)
        } else {
            (start, end)
        };
        let len = hi - lo + 1;
        if len == 64 {
            return BitBoard::empty().not();
        }
        proof {
            let m = BitBoard(span(lo as u64, len as u64));
            assert forall|sq: int| 0 <= sq < 64 implies #[trigger] m.has(sq) == (lo <= sq <= hi) by {
                lemma_bit_span(lo as u64, len as u64, sq as u64);
            }
            lemma_bit_span(lo as u64, len as u64, 0);
        }
        let mask = (1u64 << (len as u64)) - 1;
        BitBoard(mask << (lo as u64))
    }

    /// The square in column `x` of row `y`, rows counted from the top.
    pub fn coords(x: u16, y: u16, bounds: Bounds) -> (r: BitBoard)
        requires
            bounds.fits(),
            x < bounds.cols,
            y < bounds.rows,
        ensures
            (bounds.rows - 1 - y) * bounds.cols + x < 64,
            r == BitBoard::spec_index(((bounds.rows - 1 - y) * bounds.cols + x) as u16),
    {
        proof {
            let row = bounds.rows - 1 - y;
            let width = bounds.cols as int;
            assert((row + 1) * width <= bounds.rows * width) by (nonlinear_arith)
                requires
                    row + 1 <= bounds.rows,
                    width >= 0,
            ;
            assert((row + 1) * width == row * width + width) by (nonlinear_arith);
            assert(0 <= row * width) by (nonlinear_arith)
                requires
                    row >= 0,
                    width >= 0,
            ;
        }
        let index = (bounds.rows - 1 - y) * bounds.cols + x;
        Self::index(index)
    }
}

/// The sign for a square: a white box where the square is in the set, a
/// black box where it is not.
pub open spec fn cell_char(set: bool) -> char {
    if set {
        '\u{2b1c}'
    } else {
        '\u{2b1b}'
    }
}

/// The signs of the first `count` squares of the row that is `row` rows
/// from the top.
pub open spec fn cells_text(board: BitBoard, bounds: Bounds, row: int, count: int) -> Seq<char>
    decreases count,
{
    if count <= 0 {
        Seq::empty()
    } else {
        cells_text(board, bounds, row, count - 1).push(
            cell_char(board.has((bounds.rows - 1 - row) * bounds.cols + count - 1)),
        )
    }
}

/// The picture of the first `count` rows from the top, each row ending its
/// line.
pub open spec fn rows_picture(board: BitBoard, bounds: Bounds, count: int) -> Seq<char>
    decreases count,
{
    if count <= 0 {
        Seq::empty()
    } else {
        rows_picture(board, bounds, count - 1) + cells_text(
            board,
            bounds,
            count - 1,
            bounds.cols as int,
        ).push('\n')
    }
}

impl BitBoard {
    /// The picture of the set on a board: one line for each row, from the
    /// top, with a white box for each square of the set and a black box
    /// for each other square.
    pub fn display(self, bounds: Bounds) -> (picture: String)
        requires
            bounds.fits(),
        ensures
            picture@ == rows_picture(self, bounds, bounds.rows as int),
    {
        let mut out = String::new();
        let mut r: u16 = 0;
        while r < bounds.rows
            invariant
                r <= bounds.rows,
                bounds.fits(),
                out@ == rows_picture(self, bounds, r as int),
            decreases bounds.rows - r,
        {
            let ghost above = out@;
            let mut c: u16 = 0;
            while c < bounds.cols
                invariant
                    c <= bounds.cols,
                    r < bounds.rows,
                    bounds.fits(),
                    out@ == above + cells_text(self, bounds, r as int, c as int),
                decreases bounds.cols - c,
            {
                proof {
                    let row = bounds.rows - 1 - r;
                    let width = bounds.cols as int;
                    assert((row + 1) * width <= bounds.rows * width) by (nonlinear_arith)
                        requires
                            row + 1 <= bounds.rows,
                            width >= 0,
                    ;
                    assert((row + 1) * width == row * width + width) by (nonlinear_arith);
                    assert(0 <= row * width) by (nonlinear_arith)
                        requires
                            row >= 0,
                            width >= 0,
                    ;
                }
                let index: u16 = (bounds.rows - 1 - r) * bounds.cols + c;
                let bit = (self.0 >> (index as u64)) & 1;
                if bit == 1 {
                    out.push('\u{2b1c}');
                } else {
                    out.push('\u{2b1b}');
                }
                proof {
                    assert(out@ =~= above + cells_text(self, bounds, r as int, c + 1));
                }
                c = c + 1;
            }
            out.push('\n');
            proof {
                assert(out@ =~= rows_picture(self, bounds, r + 1));
            }
            r = r + 1;
        }
        out
    }
}

impl Edges {
    /// These are the borders of a board of the given shape to the given depth.
    pub open spec fn wf(self, bounds: Bounds, depth: u16) -> bool {
        &&& forall|sq: int| self.left.has(sq) == in_left_edge(bounds, depth, sq)
        &&& forall|sq: int| self.right.has(sq) == in_right_edge(bounds, depth, sq)
        &&& forall|sq: int| self.top.has(sq) == in_top_edge(bounds, depth, sq)
        &&& forall|sq: int| self.bottom.has(sq) == in_bottom_edge(bounds, depth, sq)
        &&& self.all == self.left.or(self.right).or(self.top).or(self.bottom)
    }
}

impl Default for BitBoard {
    fn default() -> (r: BitBoard)
        ensures
            r == BitBoard::spec_empty(),
    {
        BitBoard(0)
    }
}

/// A square is in the union of two sets exactly if it is in one of them.
pub broadcast proof fn lemma_or_has(a: BitBoard, b: BitBoard, sq: int)
    ensures
        #[trigger] a.spec_or(b).has(sq) == (a.has(sq) || b.has(sq)),
{
    if 0 <= sq < 64 {
        lemma_bit_logic(a.0, b.0, sq as u64);
    }
}

/// A square is in what two sets share exactly if it is in both.
pub broadcast proof fn lemma_and_has(a: BitBoard, b: BitBoard, sq: int)
    ensures
        #[trigger] a.spec_and(b).has(sq) == (a.has(sq) && b.has(sq)),
{
    if 0 <= sq < 64 {
        lemma_bit_logic(a.0, b.0, sq as u64);
    }
}

/// A square is in the difference of two sets exactly if it is in one of
/// them only.
pub broadcast proof fn lemma_xor_has(a: BitBoard, b: BitBoard, sq: int)
    ensures
        #[trigger] a.spec_xor(b).has(sq) == (a.has(sq) != b.has(sq)),
{
    if 0 <= sq < 64 {
        lemma_bit_logic(a.0, b.0, sq as u64);
    }
}

/// A square below 64 is in the complement of a set exactly if it is not
/// in the set.
pub broadcast proof fn lemma_not_has(a: BitBoard, sq: int)
    ensures
        #[trigger] a.spec_not().has(sq) == (0 <= sq < 64 && !a.has(sq)),
{
    if 0 <= sq < 64 {
        lemma_bit_logic(a.0, a.0, sq as u64);
    }
}

/// A square is in a set without another exactly if it is in the first and
/// not in the second.
pub broadcast proof fn lemma_and_not_has(a: BitBoard, b: BitBoard, sq: int)
    ensures
        #[trigger] a.spec_and_not(b).has(sq) == (a.has(sq) && !b.has(sq)),
{
    if 0 <= sq < 64 {
        lemma_bit_logic(a.0, b.0, sq as u64);
    }
}

/// No square is in the empty set.
pub broadcast proof fn lemma_empty_has(sq: int)
    ensures
        !#[trigger] BitBoard::spec_empty().has(sq),
{
    if 0 <= sq < 64 {
        lemma_bit_logic(0, 0, sq as u64);
    }
}

/// The set of one square holds that square and no other.
pub broadcast proof fn lemma_index_has(index: u16, sq: int)
    requires
        index < 64,
    ensures
        #[trigger] BitBoard::spec_index(index).has(sq) == (sq == index),
{
    if 0 <= sq < 64 {
        lemma_bit_single(index as u64, sq as u64);
    }
}

/// A square is in a set moved up in number exactly if the square so many
/// below it is in the set.
pub broadcast proof fn lemma_right_has(a: BitBoard, tiles: usize, sq: int)
    requires
        tiles < 64,
    ensures
        #[trigger] a.spec_right(tiles).has(sq) == (sq < 64 && a.has(sq - tiles)),
{
    if 0 <= sq < 64 {
        lemma_bit_shl(a.0, tiles as u64, sq as u64);
    }
}

/// A square is in a set moved down in number exactly if the square so many
/// above it is in the set.
pub broadcast proof fn lemma_left_has(a: BitBoard, tiles: usize, sq: int)
    requires
        tiles < 64,
    ensures
        #[trigger] a.spec_left(tiles).has(sq) == (0 <= sq && a.has(sq + tiles)),
{
    if 0 <= sq < 64 {
        lemma_bit_shr(a.0, tiles as u64, sq as u64);
    }
}

/// A square is in a set moved up by rows exactly if the square so many rows
/// below it is in the set.
pub broadcast proof fn lemma_up_has(a: BitBoard, tiles: usize, cols: u16, sq: int)
    requires
        tiles * cols < 64,
    ensures
        #[trigger] a.spec_up(tiles, cols).has(sq) == (sq < 64 && a.has(sq - tiles * cols)),
{
    if 0 <= sq < 64 {
        lemma_bit_shl(a.0, (tiles * cols) as u64, sq as u64);
    }
}

/// A square is in a set moved down by rows exactly if the square so many
/// rows above it is in the set.
pub broadcast proof fn lemma_down_has(a: BitBoard, tiles: usize, cols: u16, sq: int)
    requires
        tiles * cols < 64,
    ensures
        #[trigger] a.spec_down(tiles, cols).has(sq) == (0 <= sq && a.has(sq + tiles * cols)),
{
    if 0 <= sq < 64 {
        lemma_bit_shr(a.0, (tiles * cols) as u64, sq as u64);
    }
}

/// A set is empty exactly if it has no square.
pub proof fn lemma_empty_iff(a: BitBoard)
    ensures
        a.is_empty() <==> (forall|sq: int| !a.has(sq)),
        a.is_set() <==> (exists|sq: int| a.has(sq)),
{
    if a.0 != 0 {
        lemma_lowest(a.0);
        assert(a.has(lowest(a.0) as int));
    } else {
        assert forall|sq: int| !a.has(sq) by {
            lemma_empty_has(sq);
        }
    }
}

/// The set bits of half a word from a place on are as many as those of
/// the word from one place higher on.
pub proof fn lemma_squares_of_half(x: u64, from: nat)
    ensures
        squares_from(x / 2, from).len() == squares_from(x, from + 1).len(),
    decreases 64 - from,
{
    if from < 64 {
        lemma_bit_halve(x, from as u64);
        lemma_squares_of_half(x, from + 1);
    }
}

/// The count of the set bits of a word is the number of its squares.
pub proof fn lemma_popcount_squares(x: u64)
    ensures
        popcount(x) == squares_from(x, 0).len(),
    decreases x,
{
    if x == 0 {
        lemma_squares_empty(0);
    } else {
        lemma_popcount_squares(x / 2);
        lemma_squares_of_half(x, 0);
        lemma_bit_halve(x, 0);
    }
}

/// A word without set bits counts none, and only such a word does.
pub proof fn lemma_popcount_zero(x: u64)
    ensures
        (popcount(x) == 0) == (x == 0),
    decreases x,
{
    if x != 0 {
        lemma_popcount_zero(x / 2);
    }
}

/// Whether bit `i` is the one set bit of the word.
pub open spec fn only_bit(x: u64, i: u64) -> bool {
    i < 64 && bit(x, i) && forall|j: u64| j < 64 && #[trigger] bit(x, j) ==> j == i
}

/// Whether `sq` is the one square of the set.
pub open spec fn only_square(set: BitBoard, sq: int) -> bool {
    set.has(sq) && forall|other: int| #[trigger] set.has(other) ==> other == sq
}

/// A word counts one set bit exactly if it has a set bit and no other.
pub proof fn lemma_popcount_one(x: u64)
    ensures
        (popcount(x) == 1) == (exists|i: u64| only_bit(x, i)),
    decreases x,
{
    if x == 0 {
        assert forall|i: u64| !#[trigger] only_bit(x, i) by {
            if i < 64 {
                lemma_bit_logic(0, 0, i);
            }
        }
    } else {
        let half = x / 2;
        lemma_popcount_one(half);
        lemma_popcount_zero(half);
        lemma_bit_halve(x, 0);
        assert forall|k: u64| k < 63 implies bit(half, k) == bit(x, (k + 1) as u64) by {
            lemma_bit_halve(x, k);
        }
        lemma_bit_halve(x, 63);
        if x % 2 == 1 {
            if half == 0 {
                assert forall|j: u64| j < 64 && #[trigger] bit(x, j) implies j == 0 by {
                    if j > 0 {
                        lemma_bit_logic(0, 0, (j - 1) as u64);
                    }
                }
                assert(only_bit(x, 0));
            } else {
                crate::bitboard::bits::lemma_lowest(half);
                let other = (lowest(half) + 1) as u64;
                assert(bit(x, other));
                assert forall|i: u64| !#[trigger] only_bit(x, i) by {
                    if i < 64 && bit(x, i) {
                        if i == 0 {
                            assert(bit(x, other));
                        } else {
                            assert(bit(x, 0));
                        }
                    }
                }
            }
        } else {
            if popcount(half) == 1 {
                let i = choose|i: u64| only_bit(half, i);
                assert(i < 63);
                let up = (i + 1) as u64;
                assert forall|j: u64| j < 64 && #[trigger] bit(x, j) implies j == up by {
                    assert(j > 0);
                    assert(bit(half, (j - 1) as u64));
                }
                assert(only_bit(x, up));
            } else {
                assert forall|i: u64| !#[trigger] only_bit(x, i) by {
                    if only_bit(x, i) {
                        assert(i > 0);
                        let down = (i - 1) as u64;
                        assert(bit(half, down));
                        assert forall|j: u64| j < 64 && #[trigger] bit(half, j) implies j == down by {
                            assert(j < 63);
                            assert(bit(x, (j + 1) as u64));
                        }
                        assert(only_bit(half, down));
                    }
                }
            }
        }
    }
}

/// A set counts one square exactly if it has a square and no other.
pub proof fn lemma_count_one(set: BitBoard)
    ensures
        (popcount(set.0) == 1) == (exists|sq: int| only_square(set, sq)),
{
    lemma_popcount_one(set.0);
    if popcount(set.0) == 1 {
        let i = choose|i: u64| only_bit(set.0, i);
        assert forall|other: int| #[trigger] set.has(other) implies other == i by {
            assert(bit(set.0, other as u64));
        }
        assert(only_square(set, i as int));
    }
    if exists|sq: int| only_square(set, sq) {
        let sq = choose|sq: int| only_square(set, sq);
        let i = sq as u64;
        assert forall|j: u64| j < 64 && #[trigger] bit(set.0, j) implies j == i by {
            assert(set.has(j as int));
        }
        assert(only_bit(set.0, i));
    }
}

/// The squares strictly between two squares, and those from one to the
/// other, square by square.
pub proof fn lemma_between_has(start: usize, end: usize, sq: int)
    requires
        start < 64,
        end < 64,
    ensures
        BitBoard::spec_between(start, end).has(sq) == (start < sq < end || end < sq < start),
        BitBoard::spec_between_inclusive(start, end).has(sq) == (start <= sq <= end || end <= sq
            <= start),
{
    let lo = if start > end {
        end
    } else {
        start
    };
    let hi = if start > end {
        start
    } else {
        end
    };
    if 0 <= sq < 64 {
        if hi - lo > 1 {
            lemma_bit_span((lo + 1) as u64, (hi - lo - 1) as u64, sq as u64);
        } else {
            lemma_bit_logic(0, 0, sq as u64);
        }
        if hi - lo + 1 == 64 {
            lemma_bit_logic(0, 0, sq as u64);
        } else {
            lemma_bit_span(lo as u64, (hi - lo + 1) as u64, sq as u64);
        }
    }
}

/// A set meets the set of one square exactly if it has that square.
pub proof fn lemma_meets_index(a: BitBoard, index: u16)
    requires
        index < 64,
    ensures
        a.and(BitBoard::index(index)).is_set() <==> a.has(index as int),
        a.and(BitBoard::index(index)).is_empty() <==> !a.has(index as int),
{
    broadcast use group_bitboard_has;

    lemma_empty_iff(a.and(BitBoard::index(index)));
    if a.has(index as int) {
        assert(a.and(BitBoard::index(index)).has(index as int));
    }
}

/// Sets with the same squares are equal.
pub proof fn lemma_same_squares(a: BitBoard, b: BitBoard)
    requires
        forall|sq: int| 0 <= sq < 64 ==> a.has(sq) == b.has(sq),
    ensures
        a == b,
{
    assert forall|i: u64| i < 64 implies bit(a.0, i) == bit(b.0, i) by {
        assert(a.has(i as int) == b.has(i as int));
    }
    lemma_bits_equal(a.0, b.0);
}

pub broadcast group group_bitboard_has {
    lemma_or_has,
    lemma_and_has,
    lemma_xor_has,
    lemma_not_has,
    lemma_and_not_has,
    lemma_empty_has,
    lemma_index_has,
    lemma_right_has,
    lemma_left_has,
    lemma_up_has,
    lemma_down_has,
}

} // verus!
