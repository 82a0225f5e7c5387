//! Sliding pieces whose moves are found by walking their rays.
use vstd::prelude::*;
use crate::bitboard::{BitBoard, Edges};
use crate::bitboard::lemma_squares_sound;
use crate::chess::pieces::leapers::leaper::{moves_of, push_moves};
use crate::chess::pieces::sliders::{Direction, ray_attacks, spec_ray_attacks, spec_repeat};
use crate::game::action::Action;
use crate::game::{AttackDirections, Board, BoardView, Game, PIECE_KINDS};

verus! {

broadcast use crate::bitboard::group_bitboard_has;

/// How one kind of slider moves.
pub trait SliderMoves: Copy {
    /// The directions of the piece's rays, in the order of its tables.
    spec fn directions(&self) -> Seq<Direction>;

    /// The rays from `pos`, one per direction, each as far as the board goes.
    fn rays(&self, pos: BitBoard, edges: &Edges) -> (r: Vec<BitBoard>)
        ensures
            r@ == spec_rays(self.directions(), pos, edges),
    ;
}

/// The rays from `pos` in the given directions, each as far as the board
/// goes.
pub open spec fn spec_rays(directions: Seq<Direction>, pos: BitBoard, edges: &Edges) -> Seq<
    BitBoard,
> {
    Seq::new(directions.len(), |d: int| spec_repeat(pos, directions[d], edges))
}

/// A kind of piece that slides as `S` says, and whose moves are found by
/// walking its rays.
pub struct Slider<S: SliderMoves>(pub S);

/// The union of the entries for square `pos` of the first `count` lists.
pub open spec fn union_of(lists: Seq<AttackDirections>, pos: int, count: nat) -> BitBoard
    decreases count,
{
    if count == 0 {
        BitBoard::empty()
    } else {
        union_of(lists, pos, (count - 1) as nat).or(lists[count - 1][pos])
    }
}

/// What a slider on `pos` reaches along the first `count` of its rays when
/// `blockers` stand on the board.
pub open spec fn moves_along(
    lists: Seq<AttackDirections>,
    pos: usize,
    blockers: BitBoard,
    count: nat,
) -> BitBoard
    decreases count,
{
    if count == 0 {
        BitBoard::empty()
    } else {
        moves_along(lists, pos, blockers, (count - 1) as nat).or(
            spec_ray_attacks(lists[count - 1]@, pos, lists[count - 1][pos as int], blockers),
        )
    }
}

/// What a slider on `pos` reaches when `blockers` stand on the board: the
/// last list holds all rays together, each list before it one ray.
pub open spec fn spec_list_moves(lists: Seq<AttackDirections>, pos: usize, blockers: BitBoard)
    -> BitBoard {
    moves_along(lists, pos, blockers, (lists.len() - 1) as nat)
}

/// Whether, among the first `count` rays of a slider on `pos`, there is one
/// that meets `mask` and still does so when cut off at its nearest blocker.
pub open spec fn attacks_along(
    lists: Seq<AttackDirections>,
    pos: usize,
    blockers: BitBoard,
    mask: BitBoard,
    count: nat,
) -> bool {
    exists|dir: int|
        #![trigger lists[dir]]
        0 <= dir < count && lists[dir][pos as int].and(mask).is_set() && spec_ray_attacks(
            lists[dir]@,
            pos,
            lists[dir][pos as int],
            blockers,
        ).and(mask).is_set()
}

/// Whether a slider on `pos` reaches a square of `mask`: no, where all its
/// rays together miss `mask`; else as its rays tell one by one.
pub open spec fn spec_can_attack(
    lists: Seq<AttackDirections>,
    pos: usize,
    blockers: BitBoard,
    mask: BitBoard,
) -> bool {
    let rays = (lists.len() - 1) as nat;
    lists[rays as int][pos as int].and(mask).is_set() && attacks_along(
        lists,
        pos,
        blockers,
        mask,
        rays,
    )
}

/// Whether a slider on one of `sliders` reaches a square of `mask`.
pub open spec fn slider_hits(
    lists: Seq<AttackDirections>,
    sliders: BitBoard,
    blockers: BitBoard,
    mask: BitBoard,
) -> bool {
    exists|sq: int|
        #![trigger sliders.has(sq)]
        sliders.has(sq) && spec_can_attack(lists, sq as usize, blockers, mask)
}

/// The moves of the sliders of the moving team: from each of their squares,
/// lowest first, to each square reached that the team does not hold, lowest
/// first.
pub open spec fn slider_actions(lists: Seq<AttackDirections>, position: BoardView, piece_index: int)
    -> Seq<Action> {
    moves_of(
        position.pieces[piece_index].and(position.team_to_move()).squares(),
        |sq: u32|
            spec_list_moves(lists, sq as usize, position.occupied()).and_not(
                position.team_to_move(),
            ),
        piece_index as u8,
    )
}

impl Game {
    /// The lists of kind `piece_index` have the shape of a slider's: one
    /// list per ray and one more, each with an entry for every square.
    pub open spec fn slider_shape(&self, piece_index: int) -> bool {
        &&& 0 <= piece_index < self.lookup@.len()
        &&& self.lookup[piece_index]@.len() >= 1
        &&& forall|d: int|
            #![trigger self.lookup[piece_index][d]]
            0 <= d < self.lookup[piece_index]@.len() ==> self.lookup[piece_index][d]@.len() == 64
    }

    /// The lists of the slider of kind `piece_index` are in place: for each
    /// direction of `moves` and each square the ray from that square, and
    /// in the last list for each square all its rays together.
    pub open spec fn slider_ok<S: SliderMoves>(&self, piece_index: int, moves: S) -> bool {
        let directions = moves.directions();
        &&& self.slider_shape(piece_index)
        &&& self.edges@.len() >= 1
        &&& self.lookup[piece_index]@.len() == directions.len() + 1
        &&& forall|d: int, sq: int|
            #![trigger self.lookup[piece_index][d][sq]]
            0 <= d < directions.len() && 0 <= sq < 64 ==> self.lookup[piece_index][d][sq]
                == spec_repeat(BitBoard::index(sq as u16), directions[d], &self.edges[0])
        &&& forall|sq: int|
            #![trigger self.lookup[piece_index][directions.len() as int][sq]]
            0 <= sq < 64 ==> self.lookup[piece_index][directions.len() as int][sq] == union_of(
                self.lookup[piece_index]@,
                sq,
                directions.len(),
            )
    }
}

impl<S: SliderMoves> Slider<S> {
    /// What a slider of kind `piece_index` on `pos` reaches when `blockers`
    /// stand on the board.
    pub fn list_moves(game: &Game, piece_index: usize, pos: usize, blockers: BitBoard) -> (r:
        BitBoard)
        requires
            game.slider_shape(piece_index as int),
            pos < 64,
        ensures
            r == spec_list_moves(game.lookup[piece_index as int]@, pos, blockers),
    {
        let rays = game.lookup[piece_index].len() - 1;

        let mut moves = BitBoard::empty();
        let mut dir: usize = 0;
        while dir < rays
            invariant
                game.slider_shape(piece_index as int),
                pos < 64,
                dir <= rays,
                rays == game.lookup[piece_index as int]@.len() - 1,
                moves == moves_along(game.lookup[piece_index as int]@, pos, blockers, dir as nat),
            decreases rays - dir,
        {
            let ray = game.lookup[piece_index][dir][pos];
            moves = moves.or(ray_attacks(game, piece_index, pos, dir, ray, blockers));
            dir = dir + 1;
        }
        moves
    }

    /// Whether a slider of kind `piece_index` on `pos` reaches a square of
    /// `mask` when `blockers` stand on the board.
    pub fn can_attack(
        game: &Game,
        piece_index: usize,
        pos: usize,
        blockers: BitBoard,
        mask: BitBoard,
    ) -> (r: bool)
        requires
            game.slider_shape(piece_index as int),
            pos < 64,
        ensures
            r == spec_can_attack(game.lookup[piece_index as int]@, pos, blockers, mask),
    {
        let rays = game.lookup[piece_index].len() - 1;
        let all_ind = rays;
        let ghost lists = game.lookup[piece_index as int]@;

        if game.lookup[piece_index][all_ind][pos].and(mask).is_empty() {
            return false;
        }
        let mut dir: usize = 0;
        while dir < rays
            invariant
                game.slider_shape(piece_index as int),
                pos < 64,
                dir <= rays,
                lists == game.lookup[piece_index as int]@,
                rays == lists.len() - 1,
                lists[rays as int][pos as int].and(mask).is_set(),
                !attacks_along(lists, pos, blockers, mask, dir as nat),
            decreases rays - dir,
        {
            // A ray that misses the mask when nothing blocks it is passed over.
            let ray = game.lookup[piece_index][dir][pos];
            if !ray.and(mask).is_empty() {
                let ray = ray_attacks(game, piece_index, pos, dir, ray, blockers);
                if ray.and(mask).is_set() {
                    proof {
                        assert(lists[dir as int] == game.lookup[piece_index as int][dir as int]);
                    }
                    return true;
                }
            }
            dir = dir + 1;
        }
        false
    }

    /// Fills the lists of kind `piece_index`: for each ray and each of the
    /// 64 squares the ray from that square, and one list with all rays of
    /// each square together.
    pub fn process(&self, game: &mut Game, piece_index: usize)
        requires
            piece_index < old(game).lookup@.len(),
            old(game).edges@.len() >= 1,
        ensures
            final(game).slider_ok(piece_index as int, self.0),
            final(game).lookup@.len() == old(game).lookup@.len(),
            forall|k: int|
                0 <= k < old(game).lookup@.len() && k != piece_index ==> final(game).lookup[k]
                    == old(game).lookup[k],
            final(game).edges == old(game).edges,
            final(game).bounds == old(game).bounds,
            final(game).default_pos == old(game).default_pos,
            final(game).magics == old(game).magics,
            final(game).tables == old(game).tables,
    {
        let edges = game.edges[0];
        let ghost directions = self.0.directions();
        let first = self.0.rays(BitBoard::index(0), &edges);
        let count = first.len();

        let mut lists: Vec<Vec<BitBoard>> = Vec::new();
        let mut dir: usize = 0;
        while dir < count
            invariant
                dir <= count,
                count == directions.len(),
                directions == self.0.directions(),
                lists@.len() == dir,
                forall|d: int| #![trigger lists[d]] 0 <= d < dir ==> lists[d]@.len() == 64,
                forall|d: int, sq: int|
                    #![trigger lists[d][sq]]
                    0 <= d < dir && 0 <= sq < 64 ==> lists[d][sq] == spec_repeat(
                        BitBoard::index(sq as u16),
                        directions[d],
                        &edges,
                    ),
            decreases count - dir,
        {
            let mut list: Vec<BitBoard> = Vec::new();
            let mut index: u16 = 0;
            while index < 64
                invariant
                    index <= 64,
                    dir < count,
                    count == directions.len(),
                    directions == self.0.directions(),
                    list@.len() == index,
                    forall|sq: int|
                        #![trigger list[sq]]
                        0 <= sq < index ==> list[sq] == spec_repeat(
                            BitBoard::index(sq as u16),
                            directions[dir as int],
                            &edges,
                        ),
                decreases 64 - index,
            {
                let rays = self.0.rays(BitBoard::index(index), &edges);
                list.push(rays[dir]);
                index = index + 1;
            }
            lists.push(list);
            dir = dir + 1;
        }
        let mut all: Vec<BitBoard> = Vec::new();
        let mut index: usize = 0;
        while index < 64
            invariant
                index <= 64,
                count == directions.len(),
                lists@.len() == count,
                all@.len() == index,
                forall|d: int| #![trigger lists[d]] 0 <= d < count ==> lists[d]@.len() == 64,
                forall|sq: int|
                    #![trigger all[sq]]
                    0 <= sq < index ==> all[sq] == union_of(lists@, sq, count as nat),
            decreases 64 - index,
        {
            let mut union = BitBoard::empty();
            let mut dir: usize = 0;
            while dir < count
                invariant
                    index < 64,
                    dir <= count,
                    lists@.len() == count,
                    forall|d: int| #![trigger lists[d]] 0 <= d < count ==> lists[d]@.len() == 64,
                    union == union_of(lists@, index as int, dir as nat),
                decreases count - dir,
            {
                union = union.or(lists[dir][index]);
                dir = dir + 1;
            }
            all.push(union);
            index = index + 1;
        }
        let ghost rays = lists@;
        lists.push(all);
        proof {
            assert forall|sq: int| 0 <= sq < 64 implies union_of(lists@, sq, count as nat)
                == union_of(rays, sq, count as nat) by {
                lemma_union_of_prefix(rays, lists@, sq, count as nat);
            }
        }
        game.lookup.set(piece_index, lists);
    }

    /// Whether a slider of the moving team reaches a square of `mask`.
    pub fn attacks(&self, board: &Board, piece_index: usize, mask: BitBoard) -> (r: bool)
        requires
            board.game.slider_shape(piece_index as int),
            piece_index < PIECE_KINDS,
        ensures
            r == slider_hits(
                board.game.lookup[piece_index as int]@,
                board.state@.pieces[piece_index as int].and(board.state@.team_to_move()),
                board.state@.occupied(),
                mask,
            ),
    {
        let team = board.state.team_to_move();
        let blockers = board.state.black.or(board.state.white);
        proof {
            crate::bitboard::bits::lemma_or_commutes(board.state.black.0, board.state.white.0);
        }
        let sliders = board.state.pieces[piece_index].and(team);
        let ghost lists = board.game.lookup[piece_index as int]@;
        let ghost mut seen: Seq<u32> = Seq::empty();
        let mut it = sliders.iter();
        let mut next = it.next();
        proof {
            lemma_squares_sound(sliders.0, 0);
        }
        while next.is_some()
            invariant
                board.game.slider_shape(piece_index as int),
                lists == board.game.lookup[piece_index as int]@,
                blockers == board.state@.occupied(),
                sliders == board.state@.pieces[piece_index as int].and(
                    board.state@.team_to_move(),
                ),
                next matches Some(sq) ==> seen.push(sq) + it.remaining() == sliders.squares(),
                next.is_none() ==> seen == sliders.squares(),
                forall|k: int|
                    #![trigger seen[k]]
                    0 <= k < seen.len() ==> seen[k] < 64 && !spec_can_attack(
                        lists,
                        seen[k] as usize,
                        blockers,
                        mask,
                    ),
                forall|k: int|
                    #![trigger sliders.squares()[k]]
                    0 <= k < sliders.squares().len() ==> sliders.squares()[k] < 64 && sliders.has(
                        sliders.squares()[k] as int,
                    ),
            decreases it.remaining().len() + (if next.is_some() { 1nat } else { 0nat }),
        {
            let pos = next.unwrap();
            proof {
                assert(sliders.squares()[seen.len() as int] == pos);
            }
            if Self::can_attack(board.game, piece_index, pos as usize, blockers, mask) {
                proof {
                    assert(sliders.has(pos as int));
                }
                return true;
            }
            proof {
                seen = seen.push(pos);
            }
            let ghost before = it.remaining();
            next = it.next();
            proof {
                match next {
                    Some(sq) => {
                        assert(seen.push(sq) + it.remaining() =~= seen + before);
                    },
                    None => {
                        assert(seen =~= seen + before);
                    },
                }
            }
        }
        proof {
            assert forall|sq: int| sliders.has(sq) implies !spec_can_attack(
                lists,
                sq as usize,
                blockers,
                mask,
            ) by {
                let k = choose|k: int| 0 <= k < seen.len() && seen[k] == sq as u32;
                assert(seen[k] < 64);
            }
        }
        false
    }

    /// The moves of the sliders of the moving team.
    pub fn actions(&self, board: &Board, piece_index: usize) -> (actions: Vec<Action>)
        requires
            board.game.slider_shape(piece_index as int),
            piece_index < PIECE_KINDS,
            board.state@.wf(),
        ensures
            board.state@.plain_moves(actions@, piece_index as int),
            actions@ == slider_actions(
                board.game.lookup[piece_index as int]@,
                board.state@,
                piece_index as int,
            ),
    {
        let team = board.state.team_to_move();
        let blockers = board.state.black.or(board.state.white);
        proof {
            crate::bitboard::bits::lemma_or_commutes(board.state.black.0, board.state.white.0);
        }
        let piece = piece_index as u8;
        let mut actions: Vec<Action> = Vec::new();
        let sliders = board.state.pieces[piece_index].and(team);
        let ghost lists = board.game.lookup[piece_index as int]@;
        let ghost reach = |sq: u32|
            spec_list_moves(lists, sq as usize, board.state@.occupied()).and_not(
                board.state@.team_to_move(),
            );
        let ghost mut seen: Seq<u32> = Seq::empty();
        let mut it = sliders.iter();
        let mut next = it.next();
        proof {
            lemma_squares_sound(sliders.0, 0);
        }
        while next.is_some()
            invariant
                board.game.slider_shape(piece_index as int),
                lists == board.game.lookup[piece_index as int]@,
                blockers == board.state@.occupied(),
                team == board.state@.team_to_move(),
                piece == piece_index,
                piece_index < PIECE_KINDS,
                board.state@.wf(),
                board.state@.plain_moves(actions@, piece_index as int),
                sliders == board.state@.pieces[piece_index as int].and(
                    board.state@.team_to_move(),
                ),
                reach == |sq: u32|
                    spec_list_moves(lists, sq as usize, board.state@.occupied()).and_not(
                        board.state@.team_to_move(),
                    ),
                next matches Some(sq) ==> seen.push(sq) + it.remaining() == sliders.squares(),
                next.is_none() ==> seen == sliders.squares(),
                actions@ == moves_of(seen, reach, piece),
                forall|k: int|
                    #![trigger sliders.squares()[k]]
                    0 <= k < sliders.squares().len() ==> sliders.squares()[k] < 64
                        && sliders.has(sliders.squares()[k] as int),
            decreases it.remaining().len() + (if next.is_some() { 1nat } else { 0nat }),
        {
            let pos = next.unwrap();
            proof {
                assert(sliders.squares()[seen.len() as int] == pos);
                assert(board.state@.square_ok(pos as int));
            }
            let from = pos as u16;
            let moves = Self::list_moves(board.game, piece_index, pos as usize, blockers).and_not(
                team,
            );
            push_moves(&mut actions, from, moves, piece);
            proof {
                assert(seen.push(pos).drop_last() =~= seen);
                seen = seen.push(pos);
            }
            let ghost before = it.remaining();
            next = it.next();
            proof {
                match next {
                    Some(sq) => {
                        assert(seen.push(sq) + it.remaining() =~= seen + before);
                    },
                    None => {
                        assert(seen =~= seen + before);
                    },
                }
            }
        }
        actions
    }
}

/// The union of the first `count` lists does not depend on the lists after
/// them.
pub proof fn lemma_union_of_prefix(
    a: Seq<AttackDirections>,
    b: Seq<AttackDirections>,
    pos: int,
    count: nat,
)
    requires
        count <= a.len(),
        count <= b.len(),
        forall|d: int| 0 <= d < count ==> a[d] == b[d],
    ensures
        union_of(a, pos, count) == union_of(b, pos, count),
    decreases count,
{
    if count > 0 {
        lemma_union_of_prefix(a, b, pos, (count - 1) as nat);
    }
}

} // verus!
