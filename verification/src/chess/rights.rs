//! The rights to castle, read off the position.
use vstd::prelude::*;
use crate::bitboard::{BitBoard, Bounds, in_left_edge, in_right_edge};
use crate::bitboard::group_bitboard_has;
use crate::bitboard::lemma_empty_iff;
use crate::chess::{KING, ROOK};
use crate::game::{Board, BoardView, Team};

verus! {

broadcast use group_bitboard_has;

/// For each team and each side of the board whether the team may still
/// castle there.
#[derive(Clone, Copy, Debug, PartialEq, Eq, Structural)]
pub struct CastlingRights {
    pub white_king_side: bool,
    pub white_queen_side: bool,
    pub black_king_side: bool,
    pub black_queen_side: bool,
}

impl CastlingRights {
    /// The rights as a number below 16: 8 for white's king side, 4 for
    /// white's queen side, 2 for black's king side, 1 for black's queen
    /// side.
    pub open spec fn spec_index(&self) -> usize {
        ((if self.white_king_side {
            8int
        } else {
            0int
        }) + (if self.white_queen_side {
            4int
        } else {
            0int
        }) + (if self.black_king_side {
            2int
        } else {
            0int
        }) + (if self.black_queen_side {
            1int
        } else {
            0int
        })) as usize
    }

    /// The rights as a number below 16.
    #[verifier::when_used_as_spec(spec_index)]
    pub fn index(&self) -> (r: usize)
        ensures
            r == self.spec_index(),
            r < 16,
    {
        let mut castling_ind: usize = 0;

        if self.white_king_side {
            castling_ind += 8;
        }
        if self.white_queen_side {
            castling_ind += 4;
        }
        if self.black_king_side {
            castling_ind += 2;
        }
        if self.black_queen_side {
            castling_ind += 1;
        }
        castling_ind
    }
}

/// Whether a rook of `team` that has not moved stands in one half of the
/// board, the king's side being the right half.
pub open spec fn unmoved_rook(position: BoardView, bounds: Bounds, team: Team, king_side: bool)
    -> bool {
    let half = (bounds.cols / 2) as u16;
    exists|sq: int|
        #![trigger position.pieces[ROOK as int].has(sq)]
        position.pieces[ROOK as int].has(sq) && position.first_move.has(sq) && position.team(
            team,
        ).has(sq) && if king_side {
            in_right_edge(bounds, half, sq)
        } else {
            in_left_edge(bounds, half, sq)
        }
}

/// Whether a king of `team` has not moved.
pub open spec fn unmoved_king(position: BoardView, team: Team) -> bool {
    exists|sq: int|
        #![trigger position.pieces[KING as int].has(sq)]
        position.pieces[KING as int].has(sq) && position.first_move.has(sq) && position.team(
            team,
        ).has(sq)
}

/// Whether `team` may still castle on one side of the board: a king of the
/// team has not moved, and a rook of the team in that half has not moved.
pub open spec fn may_castle(position: BoardView, bounds: Bounds, team: Team, king_side: bool)
    -> bool {
    unmoved_rook(position, bounds, team, king_side) && unmoved_king(position, team)
}

/// The rights to castle that the position leaves.
pub open spec fn castling_rights(position: BoardView, bounds: Bounds) -> CastlingRights {
    CastlingRights {
        white_king_side: may_castle(position, bounds, Team::White, true),
        white_queen_side: may_castle(position, bounds, Team::White, false),
        black_king_side: may_castle(position, bounds, Team::Black, true),
        black_queen_side: may_castle(position, bounds, Team::Black, false),
    }
}

/// The unmoved rooks of a team in one half of the board, as a set, are
/// there exactly if such a rook is.
proof fn lemma_unmoved_rook(
    position: BoardView,
    bounds: Bounds,
    team: Team,
    king_side: bool,
    side: BitBoard,
)
    requires
        forall|sq: int|
            side.has(sq) == if king_side {
                in_right_edge(bounds, (bounds.cols / 2) as u16, sq)
            } else {
                in_left_edge(bounds, (bounds.cols / 2) as u16, sq)
            },
    ensures
        position.first_move.and(position.pieces[ROOK as int]).and(position.team(team)).and(
            side,
        ).is_set() == unmoved_rook(position, bounds, team, king_side),
{
    let set = position.first_move.and(position.pieces[ROOK as int]).and(position.team(team)).and(
        side,
    );
    lemma_empty_iff(set);
    if set.is_set() {
        let sq = choose|sq: int| set.has(sq);
        assert(position.pieces[ROOK as int].has(sq));
    }
    if unmoved_rook(position, bounds, team, king_side) {
        let half = (bounds.cols / 2) as u16;
        let sq = choose|sq: int|
            #![trigger position.pieces[ROOK as int].has(sq)]
            position.pieces[ROOK as int].has(sq) && position.first_move.has(sq) && position.team(
                team,
            ).has(sq) && if king_side {
                in_right_edge(bounds, half, sq)
            } else {
                in_left_edge(bounds, half, sq)
            };
        assert(set.has(sq));
    }
}

/// The unmoved kings of a team, as a set, are there exactly if such a king
/// is.
proof fn lemma_unmoved_king(position: BoardView, team: Team)
    ensures
        position.first_move.and(position.pieces[KING as int]).and(position.team(team)).is_set()
            == unmoved_king(position, team),
{
    let set = position.first_move.and(position.pieces[KING as int]).and(position.team(team));
    lemma_empty_iff(set);
    if set.is_set() {
        let sq = choose|sq: int| set.has(sq);
        assert(position.pieces[KING as int].has(sq));
    }
    if unmoved_king(position, team) {
        let sq = choose|sq: int|
            #![trigger position.pieces[KING as int].has(sq)]
            position.pieces[KING as int].has(sq) && position.first_move.has(sq) && position.team(
                team,
            ).has(sq);
        assert(set.has(sq));
    }
}

/// The rights to castle that the position leaves.
pub fn extract_castling_rights(board: &Board) -> (rights: CastlingRights)
    requires
        board.game.bounds.fits(),
    ensures
        rights == castling_rights(board.state@, board.game.bounds),
{
    let bounds = board.game.bounds;
    let left_side = BitBoard::edges_left(bounds, bounds.cols / 2);
    let right_side = BitBoard::edges_right(bounds, bounds.cols / 2);

    let unmoved_rooks = board.state.first_move.and(board.state.pieces[ROOK]);
    let unmoved_kings = board.state.first_move.and(board.state.pieces[KING]);
    let white_king = unmoved_kings.and(board.state.white).is_set();
    let black_king = unmoved_kings.and(board.state.black).is_set();
    let white_right = unmoved_rooks.and(board.state.white).and(right_side);
    let white_left = unmoved_rooks.and(board.state.white).and(left_side);
    let black_right = unmoved_rooks.and(board.state.black).and(right_side);
    let black_left = unmoved_rooks.and(board.state.black).and(left_side);
    proof {
        let position = board.state@;
        lemma_unmoved_king(position, Team::White);
        lemma_unmoved_king(position, Team::Black);
        lemma_unmoved_rook(position, bounds, Team::White, true, right_side);
        lemma_unmoved_rook(position, bounds, Team::White, false, left_side);
        lemma_unmoved_rook(position, bounds, Team::Black, true, right_side);
        lemma_unmoved_rook(position, bounds, Team::Black, false, left_side);
    }

    CastlingRights {
        white_king_side: white_right.is_set() && white_king,
        white_queen_side: white_left.is_set() && white_king,
        black_king_side: black_right.is_set() && black_king,
        black_queen_side: black_left.is_set() && black_king,
    }
}

} // verus!
