//! Tables of random numbers by which positions are hashed.
use vstd::prelude::*;
use crate::game::random::{random_u64, seeded};
use crate::game::{Board, Team, PIECE_KINDS};

verus! {

/// One random number for each feature that a position can have.
pub struct ZobristTable {
    pub table: Vec<u64>,
}

/// The numbers of the table for the given features, xor-ed together.
pub open spec fn xor_all(table: Seq<u64>, attrs: Seq<usize>) -> u64
    decreases attrs.len(),
{
    if attrs.len() == 0 {
        0
    } else {
        xor_all(table, attrs.drop_last()) ^ table[attrs.last() as int]
    }
}

/// The feature "a piece of kind `piece` of `team` stands on `square`" on a
/// board of `squares` squares.
pub open spec fn piece_feature(team: Team, piece: int, square: int, squares: int) -> int {
    (team.index() * PIECE_KINDS + piece) * squares + square
}

/// The feature "a piece of kind `piece` of `team` stands on `square`".
pub fn get_index(board: &Board, team: Team, piece: usize, square: usize) -> (r: usize)
    requires
        board.game.bounds.rows == 8,
        board.game.bounds.cols == 8,
        piece < PIECE_KINDS,
        square < 64,
    ensures
        r == piece_feature(team, piece as int, square as int, 64),
        r < 2 * PIECE_KINDS * 64,
{
    let pieces = PIECE_KINDS;
    let squares = (board.game.bounds.cols * board.game.bounds.rows) as usize;

    let team_offset: usize = match team {
        Team::White => 0,
        Team::Black => 1,
    };

    (team_offset * pieces + piece) * squares + square
}

impl ZobristTable {
    /// A table of `hashes` numbers from a generator that starts from
    /// `seed`. No number is the largest one.
    pub fn generate(hashes: usize, seed: u64) -> (r: ZobristTable)
        ensures
            r.table@.len() == hashes,
            forall|i: int| 0 <= i < hashes ==> r.table@[i] < u64::MAX,
    {
        let mut rng = seeded(seed);
        let mut table: Vec<u64> = Vec::new();

        let mut hash: usize = 0;
        while hash < hashes
            invariant
                hash <= hashes,
                table@.len() == hash,
                forall|i: int| 0 <= i < hash ==> table@[i] < u64::MAX,
            decreases hashes - hash,
        {
            table.push(random_u64(&mut rng, 0, u64::MAX - 1));
            hash = hash + 1;
        }
        ZobristTable { table }
    }

    /// The numbers of the table for the given features, xor-ed together.
    pub fn compute(&self, attrs: &[usize]) -> (hash: u64)
        requires
            forall|i: int| 0 <= i < attrs@.len() ==> attrs@[i] < self.table@.len(),
        ensures
            hash == xor_all(self.table@, attrs@),
    {
        let mut hash: u64 = 0;
        let mut at: usize = 0;
        while at < attrs.len()
            invariant
                at <= attrs@.len(),
                forall|i: int| 0 <= i < attrs@.len() ==> attrs@[i] < self.table@.len(),
                hash == xor_all(self.table@, attrs@.take(at as int)),
            decreases attrs@.len() - at,
        {
            hash = hash ^ self.table[attrs[at]];
            proof {
                assert(attrs@.take(at + 1).drop_last() =~= attrs@.take(at as int));
            }
            at = at + 1;
        }
        proof {
            assert(attrs@.take(at as int) =~= attrs@);
        }
        hash
    }
}

} // verus!
