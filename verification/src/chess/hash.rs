//! The hash of a position: one random number for each piece on its square,
//! for the side to move, for the rights to castle and for the en passant
//! state, xor-ed together.
use vstd::prelude::*;

use crate::bitboard::lemma_squares_sound;
use crate::chess::fen::passed_square;
use crate::chess::rights::{castling_rights, extract_castling_rights};
use crate::chess::{ChessProcessor, PAWN};
use crate::game::action::ActionRecord;
use crate::game::zobrist::{ZobristTable, get_index, piece_feature, xor_all};
use crate::game::{Board, BoardModel, BoardView, Team, PIECE_KINDS};

verus! {

/// The number of features of a position on the 8 by 8 board: a piece of
/// each kind and team on each square, the side to move, the sixteen
/// combinations of rights to castle, and a double step onto each square by
/// either team or none.
pub const FEATURES: usize = 915;

/// The features "a piece of kind `piece` of `team` stands there" for the
/// given squares.
pub open spec fn square_features(squares: Seq<u32>, team: Team, piece: int) -> Seq<usize> {
    Seq::new(squares.len(), |i: int| piece_feature(team, piece, squares[i] as int, 64) as usize)
}

/// The team of the `n`th pair of a team and a kind: white for the first
/// six.
pub open spec fn pair_team(n: int) -> Team {
    if n < PIECE_KINDS {
        Team::White
    } else {
        Team::Black
    }
}

/// The features of the pieces of the first `count` pairs of a team and a
/// kind, white before black and within a team kind by kind, each pair's
/// pieces by their squares.
pub open spec fn piece_features(position: BoardView, count: int) -> Seq<usize>
    decreases count,
{
    if count <= 0 {
        Seq::empty()
    } else {
        let n = count - 1;
        piece_features(position, n) + square_features(
            position.pieces[n % 6].and(position.team(pair_team(n))).squares(),
            pair_team(n),
            n % 6,
        )
    }
}

/// The feature of the en passant state: the square that a pawn reached by
/// a double step in the last ply, counted with the squares of the team to
/// move; the last feature of all where no pawn did.
pub open spec fn en_passant_feature(position: BoardView, last: Option<ActionRecord>) -> usize {
    match last {
        Some(ActionRecord::Action(m)) => if passed_square(position, last).is_some() {
            (m.to + 64 * position.moving_team.index() + 786) as usize
        } else {
            914
        },
        _ => 914,
    }
}

/// The features of a position: those of its pieces, the side to move, the
/// rights to castle, and the en passant state.
pub open spec fn hash_features(position: BoardView, last: Option<ActionRecord>) -> Seq<usize> {
    piece_features(position, 12).push((position.moving_team.index() + 768) as usize).push(
        (castling_rights(position, crate::bitboard::Bounds { rows: 8, cols: 8 }).index()
            + 770) as usize,
    ).push(en_passant_feature(position, last))
}

/// The hash of a position by a table.
pub open spec fn spec_hash(position: BoardView, last: Option<ActionRecord>, table: Seq<u64>)
    -> u64 {
    xor_all(table, hash_features(position, last))
}

/// Positions that agree in every field, after plies of which the last
/// agree, have the same hash, whatever came before.
pub proof fn lemma_hash_stable(a: BoardModel, b: BoardModel, table: Seq<u64>)
    requires
        a.state == b.state,
        a.last() == b.last(),
    ensures
        spec_hash(a.state, a.last(), table) == spec_hash(b.state, b.last(), table),
{
}

/// Adds the features of the pieces of one kind and team.
fn push_features(board: &Board, attrs: &mut Vec<usize>, team: Team, piece: usize)
    requires
        board.game.board_ok(),
        piece < PIECE_KINDS,
        forall|i: int| 0 <= i < old(attrs)@.len() ==> old(attrs)@[i] < FEATURES,
    ensures
        final(attrs)@ == old(attrs)@ + square_features(
            board.state@.pieces[piece as int].and(board.state@.team(team)).squares(),
            team,
            piece as int,
        ),
        forall|i: int| 0 <= i < final(attrs)@.len() ==> final(attrs)@[i] < FEATURES,
{
    let set = board.state.pieces[piece].and(board.state.team(team));
    let ghost all = set.squares();
    let ghost start = attrs@;
    let ghost mut seen: Seq<u32> = Seq::empty();
    let mut it = set.iter();
    let mut next = it.next();
    proof {
        lemma_squares_sound(set.0, 0);
        assert(attrs@ =~= start + square_features(seen, team, piece as int));
    }
    while next.is_some()
        invariant
            board.game.board_ok(),
            piece < PIECE_KINDS,
            all == set.squares(),
            start == old(attrs)@,
            next matches Some(sq) ==> seen.push(sq) + it.remaining() == all,
            next.is_none() ==> seen == all,
            attrs@ == start + square_features(seen, team, piece as int),
            forall|k: int| #![trigger all[k]] 0 <= k < all.len() ==> all[k] < 64,
            forall|i: int| 0 <= i < attrs@.len() ==> attrs@[i] < FEATURES,
        decreases it.remaining().len() + (if next.is_some() { 1nat } else { 0nat }),
    {
        let square = next.unwrap();
        proof {
            assert(all[seen.len() as int] == square);
        }
        attrs.push(get_index(board, team, piece, square as usize));
        proof {
            assert(attrs@ =~= start + square_features(seen.push(square), team, piece as int));
            seen = seen.push(square);
        }
        let ghost before = it.remaining();
        next = it.next();
        proof {
            match next {
                Some(sq) => {
                    assert(seen.push(sq) + it.remaining() =~= seen + before);
                },
                None => {
                    assert(seen =~= seen + before);
                },
            }
        }
    }
}

impl ChessProcessor {
    /// A table with a number for every feature of a position, from a
    /// generator that starts from `seed`.
    pub fn gen_zobrist(&self, board: &Board, seed: u64) -> (table: ZobristTable)
        requires
            board.game.board_ok(),
        ensures
            table.table@.len() == FEATURES,
            forall|i: int| 0 <= i < FEATURES ==> table.table@[i] < u64::MAX,
    {
        let pieces = PIECE_KINDS;
        let squares = (board.game.bounds.rows * board.game.bounds.cols) as usize;
        let teams: usize = 2;

        let piece_features = pieces * squares * teams;
        let team_to_move_features = teams;
        let castling_features: usize = 16;
        let en_passant_features = (2 * squares) + 1;

        ZobristTable::generate(
            piece_features + team_to_move_features + castling_features + en_passant_features,
            seed,
        )
    }

    /// The hash of the position on the board by a table.
    pub fn hash(&self, board: &Board, table: &ZobristTable) -> (hash: u64)
        requires
            board.game.board_ok(),
            table.table@.len() == FEATURES,
        ensures
            hash == spec_hash(board.state@, board.last(), table.table@),
    {
        let mut attrs: Vec<usize> = Vec::with_capacity(30);
        let ghost position = board.state@;

        let mut pair: usize = 0;
        while pair < 12
            invariant
                pair <= 12,
                board.game.board_ok(),
                position == board.state@,
                attrs@ == piece_features(position, pair as int),
                forall|i: int| 0 <= i < attrs@.len() ==> attrs@[i] < FEATURES,
            decreases 12 - pair,
        {
            let team = if pair < 6 {
                Team::White
            } else {
                Team::Black
            };
            push_features(board, &mut attrs, team, pair % 6);
            pair = pair + 1;
        }
        let features: usize = 64 * PIECE_KINDS * 2;

        attrs.push(board.state.moving_team.index() + features);

        let features: usize = features + 2;

        let castling_rights = extract_castling_rights(board);
        let castling_index = castling_rights.index();
        attrs.push(castling_index + features);

        let features: usize = features + 16;

        let mut en_passant: Option<usize> = None;
        let count = board.history.len();
        if count > 0 {
            match board.history[count - 1] {
                ActionRecord::Action(last_move) => {
                    if last_move.from < 64 && last_move.to < 64 {
                        let was_pawn_move = match board.state.piece_at(last_move.to) {
                            Some(last_piece_index) => last_piece_index == PAWN,
                            None => false,
                        };
                        let was_double_move = match board.state.moving_team.next() {
                            Team::White => last_move.to == last_move.from + 16,
                            Team::Black => last_move.from == last_move.to + 16,
                        };
                        if was_pawn_move && was_double_move {
                            let team_index = board.state.moving_team.index();
                            en_passant = Some(
                                (last_move.to as usize) + (64 * team_index) + features,
                            );
                        }
                    }
                },
                ActionRecord::Null() => {},
            }
        }
        match en_passant {
            Some(feature) => {
                attrs.push(feature);
            },
            None => {
                attrs.push(features + (64 * 2));
            },
        }
        proof {
            assert(board.game.bounds == (crate::bitboard::Bounds { rows: 8, cols: 8 }));
        }
        table.compute(attrs.as_slice())
    }
}

} // verus!
