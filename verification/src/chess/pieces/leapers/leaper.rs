//! Pieces that leap: the squares they reach from a square do not depend on
//! what stands in between.
use vstd::prelude::*;
use crate::bitboard::{BitBoard, Edges};
use crate::bitboard::group_bitboard_has;
use crate::bitboard::lemma_squares_sound;
use crate::game::action::Action;
use crate::game::{Board, BoardView, Game, PIECE_KINDS};

verus! {

broadcast use group_bitboard_has;

/// How one kind of leaper moves.
pub trait LeaperMoves {
    /// The squares reached from the squares of `pos` on a board with the
    /// given edges.
    spec fn spec_leaps(&self, pos: BitBoard, edges: &Edges) -> BitBoard;

    fn leaps(&self, pos: BitBoard, edges: &Edges) -> (r: BitBoard)
        ensures
            r == self.spec_leaps(pos, edges),
    ;
}

/// A kind of piece that leaps as `S` says.
pub struct Leaper<S: LeaperMoves>(pub S);

/// The ordinary moves of a piece of kind `piece` from `from` to each of
/// `targets`, in their order.
pub open spec fn moves_to(from: u16, targets: Seq<u32>, piece: u8) -> Seq<Action> {
    Seq::new(
        targets.len(),
        |i: int| (Action { from, to: targets[i] as u16, piece, info: 0 }),
    )
}

/// The ordinary moves of the pieces of kind `piece` on `origins`, origin by
/// origin, to the squares that `reach` gives for each.
pub open spec fn moves_of(origins: Seq<u32>, reach: spec_fn(u32) -> BitBoard, piece: u8) -> Seq<
    Action,
>
    decreases origins.len(),
{
    if origins.len() == 0 {
        Seq::empty()
    } else {
        moves_of(origins.drop_last(), reach, piece) + moves_to(
            origins.last() as u16,
            reach(origins.last()).squares(),
            piece,
        )
    }
}

/// Every move of `moves_to` starts at `from`, ends on one of the targets, is
/// of kind `piece` and carries no tag.
pub proof fn lemma_moves_to(from: u16, targets: BitBoard, piece: u8)
    ensures
        forall|i: int|
            0 <= i < moves_to(from, targets.squares(), piece).len() ==> {
                let a = #[trigger] moves_to(from, targets.squares(), piece)[i];
                a.from == from && a.piece == piece && a.info == 0 && a.to < 64 && targets.has(
                    a.to as int,
                )
            },
{
    lemma_squares_sound(targets.0, 0);
}

/// Adds to `actions` the ordinary moves from `from` to each square of
/// `targets`, lowest square first.
pub fn push_moves(actions: &mut Vec<Action>, from: u16, targets: BitBoard, piece: u8)
    ensures
        final(actions)@ == old(actions)@ + moves_to(from, targets.squares(), piece),
        forall|i: int|
            #![trigger final(actions)@[i]]
            old(actions)@.len() <= i < final(actions)@.len() ==> {
                let a = final(actions)@[i];
                a.from == from && a.piece == piece && a.info == 0 && a.to < 64 && targets.has(
                    a.to as int,
                )
            },
{
    let ghost all = targets.squares();
    let ghost start = actions@;
    let ghost mut seen: Seq<u32> = Seq::empty();
    let mut it = targets.iter();
    let mut next = it.next();
    proof {
        lemma_squares_sound(targets.0, 0);
    }
    while next.is_some()
        invariant
            all == targets.squares(),
            next matches Some(sq) ==> seen.push(sq) + it.remaining() == all,
            next.is_none() ==> seen == all,
            actions@ == start + moves_to(from, seen, piece),
            start == old(actions)@,
            forall|k: int| 0 <= k < all.len() ==> all[k] < 64 && targets.has(all[k] as int),
        decreases it.remaining().len() + (if next.is_some() { 1nat } else { 0nat }),
    {
        let to = next.unwrap();
        proof {
            assert(all[seen.len() as int] == to);
        }
        actions.push(Action::from(from, to as u16, piece));
        proof {
            assert(moves_to(from, seen.push(to), piece) =~= moves_to(from, seen, piece).push(
                Action { from, to: to as u16, piece, info: 0 },
            ));
            seen = seen.push(to);
        }
        let ghost before = it.remaining();
        next = it.next();
        proof {
            match next {
                Some(sq) => {
                    assert(seen.push(sq) + it.remaining() =~= seen + before);
                },
                None => {
                    assert(seen =~= seen + before);
                },
            }
        }
    }
    proof {
        lemma_moves_to(from, targets, piece);
    }
}

impl Game {
    /// The table of the leaper of kind `piece_index` is in place: for each
    /// square the squares that `moves` reaches from it.
    pub open spec fn leaper_ok<S: LeaperMoves>(&self, piece_index: int, moves: S) -> bool {
        &&& 0 <= piece_index < self.lookup@.len()
        &&& self.edges@.len() >= 1
        &&& self.lookup[piece_index]@.len() == 1
        &&& self.lookup[piece_index][0]@.len() == 64
        &&& forall|sq: int|
            #![trigger self.lookup[piece_index][0][sq]]
            0 <= sq < 64 ==> self.lookup[piece_index][0][sq] == moves.spec_leaps(
                BitBoard::index(sq as u16),
                &self.edges[0],
            )
    }
}

/// Whether a leaper on one of `leapers` reaches a square of `mask`.
pub open spec fn leaper_hits(table: Seq<BitBoard>, leapers: BitBoard, mask: BitBoard) -> bool {
    exists|sq: int| #![trigger leapers.has(sq)] leapers.has(sq) && table[sq].and(mask).is_set()
}

/// The moves of the leapers of the moving team: from each of their squares,
/// lowest first, to each square of the table's entry that the team does not
/// hold, lowest first.
pub open spec fn leaper_actions(table: Seq<BitBoard>, position: BoardView, piece_index: int) -> Seq<
    Action,
> {
    moves_of(
        position.pieces[piece_index].and(position.team_to_move()).squares(),
        |sq: u32| table[sq as int].and_not(position.team_to_move()),
        piece_index as u8,
    )
}

impl<S: LeaperMoves> Leaper<S> {
    /// Fills the table of kind `piece_index`: for each of the 64 squares the
    /// squares reached from it.
    pub fn process(&self, game: &mut Game, piece_index: usize)
        requires
            piece_index < old(game).lookup@.len(),
            old(game).edges@.len() >= 1,
        ensures
            final(game).leaper_ok(piece_index as int, self.0),
            final(game).lookup@.len() == old(game).lookup@.len(),
            forall|k: int|
                0 <= k < old(game).lookup@.len() && k != piece_index ==> final(game).lookup[k]
                    == old(game).lookup[k],
            final(game).edges == old(game).edges,
            final(game).bounds == old(game).bounds,
            final(game).default_pos == old(game).default_pos,
            final(game).magics == old(game).magics,
            final(game).tables == old(game).tables,
    {
        let edges = game.edges[0];
        let mut table: Vec<BitBoard> = Vec::new();
        let mut index: u16 = 0;
        while index < 64
            invariant
                index <= 64,
                table@.len() == index,
                forall|sq: int|
                    #![trigger table[sq]]
                    0 <= sq < index ==> table[sq] == self.0.spec_leaps(
                        BitBoard::index(sq as u16),
                        &edges,
                    ),
            decreases 64 - index,
        {
            let leaper = BitBoard::index(index);
            let moves = self.0.leaps(leaper, &edges);
            table.push(moves);
            index = index + 1;
        }
        let mut directions: Vec<Vec<BitBoard>> = Vec::new();
        directions.push(table);
        game.lookup.set(piece_index, directions);
    }

    /// Whether a leaper of the moving team reaches a square of `mask`.
    pub fn attacks(&self, board: &Board, piece_index: usize, mask: BitBoard) -> (r: bool)
        requires
            board.game.leaper_ok(piece_index as int, self.0),
            piece_index < PIECE_KINDS,
        ensures
            r == leaper_hits(
                board.game.lookup[piece_index as int][0]@,
                board.state@.pieces[piece_index as int].and(board.state@.team_to_move()),
                mask,
            ),
    {
        let moving_team = board.state.team_to_move();
        let leapers = board.state.pieces[piece_index].and(moving_team);
        let ghost table = board.game.lookup[piece_index as int][0]@;
        let ghost mut seen: Seq<u32> = Seq::empty();
        let mut it = leapers.iter();
        let mut next = it.next();
        proof {
            lemma_squares_sound(leapers.0, 0);
        }
        while next.is_some()
            invariant
                board.game.leaper_ok(piece_index as int, self.0),
                table == board.game.lookup[piece_index as int][0]@,
                leapers == board.state@.pieces[piece_index as int].and(
                    board.state@.team_to_move(),
                ),
                next matches Some(sq) ==> seen.push(sq) + it.remaining() == leapers.squares(),
                next.is_none() ==> seen == leapers.squares(),
                table.len() == 64,
                forall|k: int|
                    #![trigger seen[k]]
                    0 <= k < seen.len() ==> seen[k] < 64 && !table[seen[k] as int].and(
                        mask,
                    ).is_set(),
                forall|k: int|
                    0 <= k < leapers.squares().len() ==> (#[trigger] leapers.squares()[k]) < 64
                        && leapers.has(leapers.squares()[k] as int),
            decreases it.remaining().len() + (if next.is_some() { 1nat } else { 0nat }),
        {
            let leaper = next.unwrap();
            proof {
                assert(leapers.squares()[seen.len() as int] == leaper);
            }
            let attacks = board.game.lookup[piece_index][0][leaper as usize];
            if attacks.and(mask).is_set() {
                proof {
                    assert(leapers.has(leaper as int) && table[leaper as int].and(mask).is_set());
                }
                return true;
            }
            proof {
                seen = seen.push(leaper);
            }
            let ghost before = it.remaining();
            next = it.next();
            proof {
                match next {
                    Some(sq) => {
                        assert(seen.push(sq) + it.remaining() =~= seen + before);
                    },
                    None => {
                        assert(seen =~= seen + before);
                    },
                }
            }
        }
        proof {
            assert forall|sq: int| leapers.has(sq) implies !table[sq].and(mask).is_set() by {
                let k = choose|k: int| 0 <= k < seen.len() && seen[k] == sq as u32;
                assert(!table[seen[k] as int].and(mask).is_set());
            }
        }
        false
    }

    /// The moves of the leapers of the moving team.
    pub fn actions(&self, board: &Board, piece_index: usize) -> (actions: Vec<Action>)
        requires
            board.game.leaper_ok(piece_index as int, self.0),
            piece_index < PIECE_KINDS,
            board.state@.wf(),
        ensures
            board.state@.plain_moves(actions@, piece_index as int),
            actions@ == leaper_actions(
                board.game.lookup[piece_index as int][0]@,
                board.state@,
                piece_index as int,
            ),
    {
        let moving_team = board.state.team_to_move();
        let mut actions: Vec<Action> = Vec::with_capacity(8);
        let piece = piece_index as u8;
        let leapers = board.state.pieces[piece_index].and(moving_team);
        let ghost table = board.game.lookup[piece_index as int][0]@;
        let ghost reach = |sq: u32| table[sq as int].and_not(board.state@.team_to_move());
        let ghost mut seen: Seq<u32> = Seq::empty();
        let mut it = leapers.iter();
        let mut next = it.next();
        proof {
            lemma_squares_sound(leapers.0, 0);
        }
        while next.is_some()
            invariant
                board.game.leaper_ok(piece_index as int, self.0),
                table == board.game.lookup[piece_index as int][0]@,
                moving_team == board.state@.team_to_move(),
                reach == |sq: u32| table[sq as int].and_not(board.state@.team_to_move()),
                piece == piece_index,
                piece_index < PIECE_KINDS,
                board.state@.wf(),
                board.state@.plain_moves(actions@, piece_index as int),
                leapers == board.state@.pieces[piece_index as int].and(
                    board.state@.team_to_move(),
                ),
                next matches Some(sq) ==> seen.push(sq) + it.remaining() == leapers.squares(),
                next.is_none() ==> seen == leapers.squares(),
                actions@ == moves_of(seen, reach, piece),
                forall|k: int|
                    #![trigger leapers.squares()[k]]
                    0 <= k < leapers.squares().len() ==> leapers.squares()[k] < 64
                        && leapers.has(leapers.squares()[k] as int),
            decreases it.remaining().len() + (if next.is_some() { 1nat } else { 0nat }),
        {
            let leaper = next.unwrap();
            proof {
                assert(leapers.squares()[seen.len() as int] == leaper);
                assert(board.state@.square_ok(leaper as int));
            }
            let pos = leaper as u16;
            let moves = board.game.lookup[piece_index][0][leaper as usize].and_not(moving_team);
            push_moves(&mut actions, pos, moves, piece);
            proof {
                assert(seen.push(leaper).drop_last() =~= seen);
                seen = seen.push(leaper);
            }
            let ghost before = it.remaining();
            next = it.next();
            proof {
                match next {
                    Some(sq) => {
                        assert(seen.push(sq) + it.remaining() =~= seen + before);
                    },
                    None => {
                        assert(seen =~= seen + before);
                    },
                }
            }
        }
        actions
    }
}

} // verus!
