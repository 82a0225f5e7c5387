//! Sliding pieces whose moves are looked up: the blockers that matter round
//! a square are hashed, by a multiplication and a shift, into an index of
//! that square's table of moves.
use vstd::prelude::*;
use crate::bitboard::{BitBoard, Edges, popcount};
use crate::bitboard::group_bitboard_has;
use crate::bitboard::lemma_squares_sound;
use crate::chess::pieces::leapers::leaper::{moves_of, push_moves};
use crate::chess::pieces::sliders::slider::{Slider, SliderMoves, spec_list_moves, spec_rays};
use crate::game::action::Action;
use crate::game::random::random_u64;
use crate::game::{AttackDirections, Board, BoardView, Game, MagicEntry, PIECE_KINDS};

verus! {

broadcast use group_bitboard_has;

/// How often a constant is drawn for one square before the search gives up.
pub const MAGIC_ATTEMPTS: u64 = 100_000_000;

/// The subset of `mask` that comes after `blockers` when the subsets are
/// counted up; after the full set comes the empty one.
pub open spec fn next_subset(blockers: u64, mask: u64) -> u64 {
    blockers.wrapping_sub(mask) & mask
}

/// The subset of `mask` that is reached from the empty one in `k` steps.
pub open spec fn subset_at(mask: u64, k: nat) -> u64
    decreases k,
{
    if k == 0 {
        0
    } else {
        next_subset(subset_at(mask, (k - 1) as nat), mask)
    }
}

/// The step from a subset of `mask` leads to a subset of `mask`: to the
/// empty one or to a larger one, and past no subset in between.
pub proof fn lemma_subset_step(blockers: u64, mask: u64)
    requires
        blockers & !mask == 0,
    ensures
        next_subset(blockers, mask) & !mask == 0,
        next_subset(blockers, mask) == 0 || next_subset(blockers, mask) > blockers,
        forall|other: u64|
            other & !mask == 0 && blockers < other ==> next_subset(blockers, mask) != 0
                && #[trigger] next_subset(blockers, mask) <= other,
{
    let w = blockers.wrapping_sub(mask);
    assert(w == if blockers >= mask {
        (blockers - mask) as u64
    } else {
        (0x1_0000_0000_0000_0000 + blockers - mask) as u64
    });
    assert((w & mask) & !mask == 0 && ((w & mask) == 0 || (w & mask) > blockers)) by (bit_vector)
        requires
            blockers & !mask == 0,
            w == (if blockers >= mask {
                (blockers - mask) as u64
            } else {
                (0x1_0000_0000_0000_0000 + blockers - mask) as u64
            }),
    ;
    assert forall|other: u64| other & !mask == 0 && blockers < other implies next_subset(
        blockers,
        mask,
    ) != 0 && #[trigger] next_subset(blockers, mask) <= other by {
        assert((w & mask) != 0 && (w & mask) <= other) by (bit_vector)
            requires
                blockers & !mask == 0,
                other & !mask == 0,
                blockers < other,
                w == (if blockers >= mask {
                    (blockers - mask) as u64
                } else {
                    (0x1_0000_0000_0000_0000 + blockers - mask) as u64
                }),
        ;
    }
}

/// Every set that is reached is a subset of `mask`.
pub proof fn lemma_subset_at(mask: u64, k: nat)
    ensures
        subset_at(mask, k) & !mask == 0,
    decreases k,
{
    if k == 0 {
        assert(0u64 & !mask == 0) by (bit_vector);
    } else {
        lemma_subset_at(mask, (k - 1) as nat);
        lemma_subset_step(subset_at(mask, (k - 1) as nat), mask);
    }
}

/// Counting up from the `k`th set, which is not above `target`, reaches
/// `target`.
proof fn lemma_subsets_reach(mask: u64, target: u64, k: nat) -> (found: nat)
    requires
        target & !mask == 0,
        subset_at(mask, k) <= target,
    ensures
        subset_at(mask, found) == target,
    decreases target - subset_at(mask, k),
{
    let here = subset_at(mask, k);
    if here == target {
        k
    } else {
        lemma_subset_at(mask, k);
        lemma_subset_step(here, mask);
        assert(next_subset(here, mask) <= target);
        assert(subset_at(mask, k + 1) == next_subset(here, mask));
        lemma_subsets_reach(mask, target, k + 1)
    }
}

/// Counting up from the empty set reaches every subset of `mask`.
pub proof fn lemma_subsets_complete(mask: u64, target: u64)
    requires
        target & !mask == 0,
    ensures
        exists|k: nat| subset_at(mask, k) == target,
{
    let k = lemma_subsets_reach(mask, target, 0);
    assert(subset_at(mask, k) == target);
}

/// Once the empty set comes back, after `period` steps, the sets repeat.
pub proof fn lemma_subsets_repeat(mask: u64, period: nat, k: nat)
    requires
        subset_at(mask, period) == 0,
    ensures
        subset_at(mask, period + k) == subset_at(mask, k),
    decreases k,
{
    if k > 0 {
        lemma_subsets_repeat(mask, period, (k - 1) as nat);
    }
}

/// Every set that is reached is reached within the first `period` steps.
pub proof fn lemma_subsets_within(mask: u64, period: nat, k: nat) -> (early: nat)
    requires
        period >= 1,
        subset_at(mask, period) == 0,
    ensures
        early < period,
        subset_at(mask, early) == subset_at(mask, k),
    decreases k,
{
    if k < period {
        k
    } else {
        lemma_subsets_repeat(mask, period, (k - period) as nat);
        lemma_subsets_within(mask, period, (k - period) as nat)
    }
}

impl MagicEntry {
    /// The shift leaves between 1 and 31 bits of the product.
    pub open spec fn wf(self) -> bool {
        32 < self.shift < 64
    }

    /// The number of entries of the table that the entry indexes.
    pub open spec fn table_len(self) -> nat {
        (1u64 << ((64 - self.shift) as u64)) as nat
    }

    /// The `k`th set of blockers on the squares that matter.
    pub open spec fn blockers_at(self, k: nat) -> BitBoard {
        BitBoard(subset_at(self.mask.0, k))
    }
}

/// The index of `blockers` in the table of `entry`: the blockers on the
/// squares that matter, multiplied by the magic constant, shifted right.
pub open spec fn spec_magic_index(entry: MagicEntry, blockers: BitBoard) -> usize {
    (blockers.and(entry.mask).0.wrapping_mul(entry.magic) >> (entry.shift as u64)) as usize
}

/// An index lies within the table.
pub proof fn lemma_magic_index_bound(entry: MagicEntry, blockers: BitBoard)
    requires
        entry.wf(),
    ensures
        spec_magic_index(entry, blockers) < entry.table_len(),
        entry.table_len() <= 0x8000_0000,
        entry.table_len() == (1usize << ((64 - entry.shift) as usize)),
{
    let hash = blockers.and(entry.mask).0.wrapping_mul(entry.magic);
    let shift = entry.shift as u64;
    assert((hash >> shift) < (1u64 << ((64 - shift) as u64)) && (1u64 << ((64 - shift) as u64))
        <= 0x8000_0000u64) by (bit_vector)
        requires
            32 < shift < 64,
    ;
    let bits = (64 - entry.shift) as usize;
    assert((1usize << bits) == (1u64 << (bits as u64))) by (bit_vector)
        requires
            bits < 32,
    ;
}

/// Only the blockers on the squares that matter count for the index.
pub proof fn lemma_magic_index_masked(entry: MagicEntry, blockers: BitBoard)
    ensures
        spec_magic_index(entry, blockers) == spec_magic_index(entry, blockers.and(entry.mask)),
{
    let b = blockers.0;
    let m = entry.mask.0;
    assert((b & m) & m == b & m) by (bit_vector);
}

/// The index of `blockers` in the table of `entry`.
#[verifier::when_used_as_spec(spec_magic_index)]
pub fn magic_index(entry: MagicEntry, blockers: BitBoard) -> (r: usize)
    requires
        entry.wf(),
    ensures
        r == spec_magic_index(entry, blockers),
        r < entry.table_len(),
{
    proof {
        lemma_magic_index_bound(entry, blockers);
    }
    let blockers = blockers.and(entry.mask);
    let hash = blockers.0.wrapping_mul(entry.magic);
    let index = hash >> (entry.shift as u64);
    index as usize
}

/// The table answers every set of blockers that is counted up with the
/// moves that walking the rays gives.
pub open spec fn table_ok(
    table: Seq<BitBoard>,
    entry: MagicEntry,
    lists: Seq<AttackDirections>,
    pos: usize,
) -> bool {
    &&& table.len() == entry.table_len()
    &&& forall|k: nat|
        #![trigger entry.blockers_at(k)]
        table[spec_magic_index(entry, entry.blockers_at(k)) as int] == spec_list_moves(
            lists,
            pos,
            entry.blockers_at(k),
        )
}

/// No two sets of blockers that are counted up share an index and differ in
/// their moves.
pub open spec fn perfect(entry: MagicEntry, lists: Seq<AttackDirections>, pos: usize) -> bool {
    forall|j: nat, k: nat|
        #![trigger entry.blockers_at(j), entry.blockers_at(k)]
        spec_magic_index(entry, entry.blockers_at(j)) == spec_magic_index(
            entry,
            entry.blockers_at(k),
        ) ==> spec_list_moves(lists, pos, entry.blockers_at(j)) == spec_list_moves(
            lists,
            pos,
            entry.blockers_at(k),
        )
}

/// A table that is in order answers any blockers with the moves that
/// walking the rays gives for the blockers on the squares that matter.
pub proof fn lemma_table_lookup(
    table: Seq<BitBoard>,
    entry: MagicEntry,
    lists: Seq<AttackDirections>,
    pos: usize,
    blockers: BitBoard,
)
    requires
        table_ok(table, entry, lists, pos),
    ensures
        table[spec_magic_index(entry, blockers) as int] == spec_list_moves(
            lists,
            pos,
            blockers.and(entry.mask),
        ),
{
    let b = blockers.0;
    let m = entry.mask.0;
    assert((b & m) & !m == 0) by (bit_vector);
    lemma_subsets_complete(m, b & m);
    let k = choose|k: nat| subset_at(m, k) == b & m;
    assert(entry.blockers_at(k) == blockers.and(entry.mask));
    lemma_magic_index_masked(entry, blockers);
}

/// Fills a table for the slider of kind `piece_index` on square `index`:
/// every subset of the squares that matter is given the moves that walking
/// the rays finds for it. Nothing comes back where two subsets with
/// different moves fall on one index.
pub fn try_make_table<S: SliderMoves>(
    game: &Game,
    entry: MagicEntry,
    piece_index: usize,
    index: usize,
) -> (r: Option<Vec<BitBoard>>)
    requires
        game.slider_shape(piece_index as int),
        index < 64,
        entry.wf(),
    ensures
        r.is_some() <==> perfect(entry, game.lookup[piece_index as int]@, index),
        r matches Some(table) ==> table_ok(table@, entry, game.lookup[piece_index as int]@, index),
{
    let (mut table, mut stamps) = fresh_table(entry);
    if try_fill::<S>(game, entry, piece_index, index, &mut table, &mut stamps, 1) {
        Some(table)
    } else {
        None
    }
}

/// A table for the entry without moves in it, and for each of its slots
/// the round in which the slot was last written: none yet.
fn fresh_table(entry: MagicEntry) -> (r: (Vec<BitBoard>, Vec<u64>))
    requires
        entry.wf(),
    ensures
        r.0@.len() == entry.table_len(),
        r.1@.len() == entry.table_len(),
        forall|i: int| 0 <= i < r.1@.len() ==> r.1@[i] == 0,
{
    proof {
        lemma_magic_index_bound(entry, BitBoard::empty());
    }
    let size: usize = 1usize << (64 - entry.shift);
    let mut table: Vec<BitBoard> = Vec::with_capacity(size);
    let mut stamps: Vec<u64> = Vec::with_capacity(size);
    let mut filled: usize = 0;
    while filled < size
        invariant
            filled <= size,
            table@.len() == filled,
            stamps@.len() == filled,
            forall|i: int| 0 <= i < filled ==> stamps@[i] == 0,
        decreases size - filled,
    {
        table.push(BitBoard::empty());
        stamps.push(0);
        filled = filled + 1;
    }
    (table, stamps)
}

/// Fills the table in round `round`: every subset of the squares that
/// matter is given the moves that walking the rays finds for it, in the
/// slot of its index; a slot counts as written where its stamp is the
/// round's. Gives up, and says so, where two subsets with different moves
/// fall on one index.
fn try_fill<S: SliderMoves>(
    game: &Game,
    entry: MagicEntry,
    piece_index: usize,
    index: usize,
    table: &mut Vec<BitBoard>,
    stamps: &mut Vec<u64>,
    round: u64,
) -> (fits: bool)
    requires
        game.slider_shape(piece_index as int),
        index < 64,
        entry.wf(),
        old(table)@.len() == entry.table_len(),
        old(stamps)@.len() == entry.table_len(),
        forall|i: int| 0 <= i < old(stamps)@.len() ==> old(stamps)@[i] < round,
    ensures
        final(table)@.len() == entry.table_len(),
        final(stamps)@.len() == entry.table_len(),
        forall|i: int| 0 <= i < final(stamps)@.len() ==> final(stamps)@[i] <= round,
        fits <==> perfect(entry, game.lookup[piece_index as int]@, index),
        fits ==> table_ok(final(table)@, entry, game.lookup[piece_index as int]@, index),
{
    let ghost lists = game.lookup[piece_index as int]@;
    proof {
        lemma_magic_index_bound(entry, BitBoard::empty());
    }
    let mask = entry.mask.0;
    let mut blockers = BitBoard::empty();
    let ghost mut n: nat = 0;
    let mut more = true;
    proof {
        assert(0u64 & !mask == 0) by (bit_vector);
    }
    while more
        invariant
            game.slider_shape(piece_index as int),
            lists == game.lookup[piece_index as int]@,
            index < 64,
            entry.wf(),
            mask == entry.mask.0,
            table@.len() == entry.table_len(),
            stamps@.len() == entry.table_len(),
            forall|i: int| 0 <= i < stamps@.len() ==> stamps@[i] <= round,
            blockers == entry.blockers_at(n),
            blockers.0 & !mask == 0,
            !more ==> n >= 1 && blockers.0 == 0,
            forall|k: nat|
                #![trigger entry.blockers_at(k)]
                k < n ==> stamps[spec_magic_index(entry, entry.blockers_at(k)) as int] == round
                    && table[spec_magic_index(entry, entry.blockers_at(k)) as int]
                    == spec_list_moves(lists, index, entry.blockers_at(k)),
            forall|i: int|
                #![trigger stamps[i]]
                0 <= i < stamps@.len() && stamps[i] == round ==> exists|k: nat|
                    #![trigger entry.blockers_at(k)]
                    k < n && spec_magic_index(entry, entry.blockers_at(k)) == i,
        decreases
                (if more {
                    u64::MAX - blockers.0 + 1
                } else {
                    0
                }),
    {
        let moves = Slider::<S>::list_moves(game, piece_index, index, blockers);
        let slot = magic_index(entry, blockers);
        let ghost old_table = table@;
        let ghost old_stamps = stamps@;
        if stamps[slot] != round {
            // The slot is free in this round.
            table.set(slot, moves);
            stamps.set(slot, round);
        } else if table[slot] != moves {
            // Two different sets of moves in one slot: the constant is no good.
            proof {
                let k = choose|k: nat|
                    #![trigger entry.blockers_at(k)]
                    k < n && spec_magic_index(entry, entry.blockers_at(k)) == slot;
                assert(spec_magic_index(entry, entry.blockers_at(k)) == spec_magic_index(
                    entry,
                    entry.blockers_at(n),
                ));
            }
            return false;
        }
        proof {
            lemma_subset_step(blockers.0, mask);
            assert forall|k: nat|
                #![trigger entry.blockers_at(k)]
                k < n + 1 implies stamps[spec_magic_index(entry, entry.blockers_at(k)) as int]
                == round && table[spec_magic_index(entry, entry.blockers_at(k)) as int]
                == spec_list_moves(lists, index, entry.blockers_at(k)) by {
                lemma_magic_index_bound(entry, entry.blockers_at(k));
                let at = spec_magic_index(entry, entry.blockers_at(k)) as int;
                if k < n {
                    assert(old_stamps[at] == round);
                    assert(old_table[at] == spec_list_moves(lists, index, entry.blockers_at(k)));
                }
            }
            assert forall|i: int| 0 <= i < stamps@.len() && stamps[i] == round implies exists|
                k: nat,
            |
                #![trigger entry.blockers_at(k)]
                k < n + 1 && spec_magic_index(entry, entry.blockers_at(k)) == i by {
                if i == slot {
                    assert(spec_magic_index(entry, entry.blockers_at(n)) == i);
                } else {
                    assert(old_stamps[i] == round);
                    let k = choose|k: nat|
                        #![trigger entry.blockers_at(k)]
                        k < n && spec_magic_index(entry, entry.blockers_at(k)) == i;
                    assert(spec_magic_index(entry, entry.blockers_at(k)) == i);
                }
            }
            n = n + 1;
        }
        blockers = BitBoard(blockers.0.wrapping_sub(mask) & mask);
        more = !blockers.is_empty();
    }
    proof {
        assert forall|k: nat|
            #![trigger entry.blockers_at(k)]
            table[spec_magic_index(entry, entry.blockers_at(k)) as int] == spec_list_moves(
                lists,
                index,
                entry.blockers_at(k),
            ) by {
            let early = lemma_subsets_within(mask, n, k);
            assert(entry.blockers_at(early) == entry.blockers_at(k));
        }
    }
    true
}

/// The squares that matter for the moves along `ray`: the ray without the
/// first of the bottom, left, right and top edge that it meets in exactly
/// one square; nothing where it meets none so.
pub open spec fn relevant_of(ray: BitBoard, edges: &Edges) -> BitBoard {
    if popcount(ray.and(edges.bottom).0) == 1 {
        ray.and_not(edges.bottom)
    } else if popcount(ray.and(edges.left).0) == 1 {
        ray.and_not(edges.left)
    } else if popcount(ray.and(edges.right).0) == 1 {
        ray.and_not(edges.right)
    } else if popcount(ray.and(edges.top).0) == 1 {
        ray.and_not(edges.top)
    } else {
        BitBoard::empty()
    }
}

/// The squares that matter for the moves along the first `count` of `rays`.
pub open spec fn relevant_mask(rays: Seq<BitBoard>, edges: &Edges, count: nat) -> BitBoard
    decreases count,
{
    if count == 0 {
        BitBoard::empty()
    } else {
        relevant_mask(rays, edges, (count - 1) as nat).or(relevant_of(rays[count - 1], edges))
    }
}

/// The squares that matter for a slider with the moves `moves` on the
/// square `sq`.
pub open spec fn mask_of<S: SliderMoves>(moves: S, edges: &Edges, sq: int) -> BitBoard {
    relevant_mask(
        spec_rays(moves.directions(), BitBoard::index(sq as u16), edges),
        edges,
        moves.directions().len(),
    )
}

/// Whether for some square more than 31 squares matter: a table for it
/// would have more slots than are provided for.
pub open spec fn too_wide<S: SliderMoves>(moves: S, edges: &Edges) -> bool {
    exists|sq: int| 0 <= sq < 64 && popcount(#[trigger] mask_of(moves, edges, sq).0) > 31
}

/// The shift for a mask of `count` squares: it leaves `count` bits, and one
/// bit for the empty mask.
pub open spec fn shift_for(count: nat) -> usize {
    if count == 0 {
        63
    } else {
        (64 - count) as usize
    }
}

impl Game {
    /// The magic tables of kind `piece_index` are in place: for each square
    /// an entry whose mask holds the squares that matter for `moves`, and a
    /// table that answers every subset of the mask with the moves that
    /// walking the rays gives.
    pub open spec fn magic_ok<S: SliderMoves>(&self, piece_index: int, moves: S) -> bool {
        &&& self.slider_ok(piece_index, moves)
        &&& piece_index < self.magics@.len()
        &&& piece_index < self.tables@.len()
        &&& self.magics[piece_index]@.len() == 64
        &&& self.tables[piece_index]@.len() == 64
        &&& forall|sq: int|
            #![trigger self.magics[piece_index][sq]]
            0 <= sq < 64 ==> {
                let entry = self.magics[piece_index][sq];
                &&& entry.wf()
                &&& entry.shift == shift_for(popcount(entry.mask.0))
                &&& entry.mask == relevant_mask(
                    spec_rays(moves.directions(), BitBoard::index(sq as u16), &self.edges[0]),
                    &self.edges[0],
                    moves.directions().len(),
                )
                &&& table_ok(
                    self.tables[piece_index][sq]@,
                    entry,
                    self.lookup[piece_index]@,
                    sq as usize,
                )
            }
    }

    /// The magic tables of kind `piece_index` can be read: an entry and a
    /// table for each square, and every index within its table.
    pub open spec fn magic_shape(&self, piece_index: int) -> bool {
        &&& self.slider_shape(piece_index)
        &&& piece_index < self.magics@.len()
        &&& piece_index < self.tables@.len()
        &&& self.magics[piece_index]@.len() == 64
        &&& self.tables[piece_index]@.len() == 64
        &&& forall|sq: int|
            #![trigger self.magics[piece_index][sq]]
            0 <= sq < 64 ==> self.magics[piece_index][sq].wf() && table_ok(
                self.tables[piece_index][sq]@,
                self.magics[piece_index][sq],
                self.lookup[piece_index]@,
                sq as usize,
            )
    }

    /// What the slider of kind `piece_index` on `pos` reaches by its table:
    /// what walking its rays gives for the blockers on the squares that
    /// matter.
    pub open spec fn magic_reach(&self, piece_index: int, pos: usize, blockers: BitBoard)
        -> BitBoard {
        spec_list_moves(
            self.lookup[piece_index]@,
            pos,
            blockers.and(self.magics[piece_index][pos as int].mask),
        )
    }
}

/// Whether a slider on one of `sliders` reaches, by its table, a square of
/// `mask` that its team does not hold.
pub open spec fn magic_hits(
    game: &Game,
    piece_index: int,
    sliders: BitBoard,
    blockers: BitBoard,
    team: BitBoard,
    mask: BitBoard,
) -> bool {
    exists|sq: int|
        #![trigger sliders.has(sq)]
        sliders.has(sq) && game.magic_reach(piece_index, sq as usize, blockers).and_not(team).and(
            mask,
        ).is_set()
}

/// The moves of the sliders of the moving team by their tables: from each
/// of their squares, lowest first, to each square reached that the team does
/// not hold, lowest first.
pub open spec fn magic_actions(game: &Game, position: BoardView, piece_index: int) -> Seq<Action> {
    moves_of(
        position.pieces[piece_index].and(position.team_to_move()).squares(),
        |sq: u32|
            game.magic_reach(piece_index, sq as usize, position.occupied()).and_not(
                position.team_to_move(),
            ),
        piece_index as u8,
    )
}

/// What the slider of kind `piece_index` on `pos` reaches, by its table,
/// of the squares that `team` does not hold.
pub fn magic_moves(
    board: &Board,
    pos: usize,
    piece_index: usize,
    blockers: BitBoard,
    team: BitBoard,
) -> (r: BitBoard)
    requires
        board.game.magic_shape(piece_index as int),
        pos < 64,
    ensures
        r == board.game.magic_reach(piece_index as int, pos, blockers).and_not(team),
{
    let entry = get_magic_entry(board, piece_index, pos);
    let magic_ind = magic_index(entry, blockers);
    proof {
        lemma_table_lookup(
            board.game.tables[piece_index as int][pos as int]@,
            entry,
            board.game.lookup[piece_index as int]@,
            pos,
            blockers,
        );
    }
    let raw_moves = get_raw_magic_moves(board, piece_index, pos, magic_ind);
    filter_friendly(raw_moves, team)
}

/// The magic entry of the slider of kind `piece_index` on `pos`.
pub fn get_magic_entry(board: &Board, piece_index: usize, pos: usize) -> (r: MagicEntry)
    requires
        piece_index < board.game.magics@.len(),
        pos < board.game.magics[piece_index as int]@.len(),
    ensures
        r == board.game.magics[piece_index as int][pos as int],
{
    board.game.magics[piece_index][pos]
}

/// What the table of the slider of kind `piece_index` on `pos` holds at an
/// index.
pub fn get_raw_magic_moves(board: &Board, piece_index: usize, pos: usize, magic_ind: usize) -> (r:
    BitBoard)
    requires
        piece_index < board.game.tables@.len(),
        pos < board.game.tables[piece_index as int]@.len(),
        magic_ind < board.game.tables[piece_index as int][pos as int]@.len(),
    ensures
        r == board.game.tables[piece_index as int][pos as int][magic_ind as int],
{
    board.game.tables[piece_index][pos][magic_ind]
}

/// The moves without those onto squares of the own team.
pub fn filter_friendly(moves: BitBoard, team: BitBoard) -> (r: BitBoard)
    ensures
        r == moves.and_not(team),
{
    moves.and_not(team)
}

/// A kind of piece that slides as `S` says, and whose moves are looked up in
/// magic tables.
#[derive(Copy, Clone)]
pub struct Magic<S: SliderMoves>(pub S);

/// The squares that matter for the moves along one ray.
fn relevant_squares(ray: BitBoard, edges: &Edges) -> (r: BitBoard)
    ensures
        r == relevant_of(ray, edges),
{
    if ray.and(edges.bottom).count() == 1 {
        ray.and_not(edges.bottom)
    } else if ray.and(edges.left).count() == 1 {
        ray.and_not(edges.left)
    } else if ray.and(edges.right).count() == 1 {
        ray.and_not(edges.right)
    } else if ray.and(edges.top).count() == 1 {
        ray.and_not(edges.top)
    } else {
        BitBoard::empty()
    }
}

impl<S: SliderMoves> Magic<S> {
    /// Fills the lists of rays of kind `piece_index`, then for each of the
    /// 64 squares draws magic constants until one gives a table without a
    /// clash. Gives up, and says so, where a mask has more than 31 squares
    /// or no constant is found for a square in `MAGIC_ATTEMPTS` draws; the
    /// lists of rays are then in place and the tables are as they were.
    pub fn process(&self, game: &mut Game, piece_index: usize, rng: &mut fastrand::Rng) -> (found:
        bool)
        requires
            piece_index < old(game).lookup@.len(),
            piece_index < old(game).magics@.len(),
            piece_index < old(game).tables@.len(),
            old(game).edges@.len() >= 1,
        ensures
            found ==> final(game).magic_ok(piece_index as int, self.0),
            too_wide(self.0, &old(game).edges[0]) ==> !found,
            !found ==> final(game).magics == old(game).magics && final(game).tables == old(
                game,
            ).tables,
            final(game).slider_ok(piece_index as int, self.0),
            final(game).lookup@.len() == old(game).lookup@.len(),
            final(game).magics@.len() == old(game).magics@.len(),
            final(game).tables@.len() == old(game).tables@.len(),
            forall|k: int|
                0 <= k < old(game).lookup@.len() && k != piece_index ==> final(game).lookup[k]
                    == old(game).lookup[k],
            forall|k: int|
                0 <= k < old(game).magics@.len() && k != piece_index ==> final(game).magics[k]
                    == old(game).magics[k],
            forall|k: int|
                0 <= k < old(game).tables@.len() && k != piece_index ==> final(game).tables[k]
                    == old(game).tables[k],
            final(game).edges == old(game).edges,
            final(game).bounds == old(game).bounds,
            final(game).default_pos == old(game).default_pos,
    {
        let slider = Slider(self.0);
        slider.process(game, piece_index);

        match self.search(game, piece_index, rng) {
            Some((lookup, magics)) => {
                game.tables.set(piece_index, lookup);
                game.magics.set(piece_index, magics);
                true
            },
            None => false,
        }
    }

    /// For each of the 64 squares the mask of the squares that matter, a
    /// magic constant and the table that it gives; nothing where the search
    /// gives up. A constant is three draws and-ed together, so that few of
    /// its bits are set. Its lowest bit is left as drawn: set, it would add
    /// the blockers themselves to the product, and for a rook on the top
    /// row the squares of that row would then take up their own places in
    /// the index and leave the squares of the column no room.
    fn search(&self, game: &Game, piece_index: usize, rng: &mut fastrand::Rng) -> (r: Option<
        (Vec<Vec<BitBoard>>, Vec<MagicEntry>),
    >)
        requires
            game.slider_ok(piece_index as int, self.0),
        ensures
            too_wide(self.0, &game.edges[0]) ==> r is None,
            r matches Some((lookup, magics)) ==> {
                &&& lookup@.len() == 64
                &&& magics@.len() == 64
                &&& forall|sq: int|
                    #![trigger magics[sq]]
                    0 <= sq < 64 ==> {
                        &&& magics[sq].wf()
                        &&& magics[sq].shift == shift_for(popcount(magics[sq].mask.0))
                        &&& magics[sq].mask == relevant_mask(
                            spec_rays(
                                self.0.directions(),
                                BitBoard::index(sq as u16),
                                &game.edges[0],
                            ),
                            &game.edges[0],
                            self.0.directions().len(),
                        )
                        &&& table_ok(
                            lookup[sq]@,
                            magics[sq],
                            game.lookup[piece_index as int]@,
                            sq as usize,
                        )
                    }
            },
    {
        let edges = game.edges[0];
        let ghost directions = self.0.directions();
        let ghost lists = game.lookup[piece_index as int]@;

        let mut lookup: Vec<Vec<BitBoard>> = Vec::new();
        let mut magics: Vec<MagicEntry> = Vec::new();

        let mut index: u16 = 0;
        while index < 64
            invariant
                index <= 64,
                game.slider_ok(piece_index as int, self.0),
                game.edges@.len() >= 1,
                edges == game.edges[0],
                directions == self.0.directions(),
                lists == game.lookup[piece_index as int]@,
                lookup@.len() == index,
                magics@.len() == index,
                forall|sq: int|
                    #![trigger magics[sq]]
                    0 <= sq < index ==> {
                        &&& magics[sq].wf()
                        &&& magics[sq].shift == shift_for(popcount(magics[sq].mask.0))
                        &&& magics[sq].mask == relevant_mask(
                            spec_rays(directions, BitBoard::index(sq as u16), &edges),
                            &edges,
                            directions.len(),
                        )
                        &&& table_ok(lookup[sq]@, magics[sq], lists, sq as usize)
                    },
            decreases 64 - index,
        {
            let pos = BitBoard::index(index);
            let rays = self.0.rays(pos, &edges);
            let mut relevant_blockers = BitBoard::empty();

            let mut at: usize = 0;
            while at < rays.len()
                invariant
                    at <= rays@.len(),
                    relevant_blockers == relevant_mask(rays@, &edges, at as nat),
                decreases rays@.len() - at,
            {
                relevant_blockers = relevant_blockers.or(relevant_squares(rays[at], &edges));
                at = at + 1;
            }
            let count = relevant_blockers.count();
            if count > 31 {
                return None;
            }
            let shift: usize = if count == 0 {
                63
            } else {
                64 - count as usize
            };

            let mut attempts: u64 = 0;
            let mut done = false;
            let ghost shape = MagicEntry { mask: relevant_blockers, magic: 0, shift };
            let (mut table, mut stamps) = fresh_table(
                MagicEntry { mask: relevant_blockers, magic: 0, shift },
            );
            while !done && attempts < MAGIC_ATTEMPTS
                invariant
                    index < 64,
                    game.slider_ok(piece_index as int, self.0),
                    lists == game.lookup[piece_index as int]@,
                    32 < shift < 64,
                    shift == shift_for(popcount(relevant_blockers.0)),
                    attempts <= MAGIC_ATTEMPTS,
                    shape == (MagicEntry { mask: relevant_blockers, magic: 0, shift }),
                    !done ==> table@.len() == shape.table_len() && stamps@.len()
                        == shape.table_len(),
                    !done ==> forall|i: int| 0 <= i < stamps@.len() ==> stamps@[i] <= attempts,
                    lookup@.len() == index + (if done { 1int } else { 0int }),
                    magics@.len() == lookup@.len(),
                    done ==> {
                        &&& magics[index as int].wf()
                        &&& magics[index as int].shift == shift
                        &&& magics[index as int].mask == relevant_blockers
                        &&& table_ok(lookup[index as int]@, magics[index as int], lists, index as usize)
                    },
                    forall|sq: int|
                        #![trigger magics[sq]]
                        0 <= sq < index ==> {
                            &&& magics[sq].wf()
                            &&& magics[sq].shift == shift_for(popcount(magics[sq].mask.0))
                            &&& magics[sq].mask == relevant_mask(
                                spec_rays(directions, BitBoard::index(sq as u16), &edges),
                                &edges,
                                directions.len(),
                            )
                            &&& table_ok(lookup[sq]@, magics[sq], lists, sq as usize)
                        },
                decreases MAGIC_ATTEMPTS - attempts + (if done { 0int } else { 1int }),
            {
                let magic = random_u64(rng, 0, u64::MAX) & random_u64(rng, 0, u64::MAX) & random_u64(
                    rng,
                    0,
                    u64::MAX,
                );

                let entry = MagicEntry { mask: relevant_blockers, magic, shift };
                attempts = attempts + 1;

                if try_fill::<S>(
                    game,
                    entry,
                    piece_index,
                    index as usize,
                    &mut table,
                    &mut stamps,
                    attempts,
                ) {
                    let mut found: Vec<BitBoard> = Vec::new();
                    std::mem::swap(&mut found, &mut table);
                    lookup.push(found);
                    magics.push(entry);
                    done = true;
                }
            }
            if !done {
                return None;
            }
            index = index + 1;
        }
        proof {
            if too_wide(self.0, &edges) {
                let sq = choose|sq: int|
                    0 <= sq < 64 && popcount(#[trigger] mask_of(self.0, &edges, sq).0) > 31;
                assert(magics[sq].wf());
                assert(magics[sq].mask == mask_of(self.0, &edges, sq));
                crate::bitboard::lemma_popcount_squares(magics[sq].mask.0);
                lemma_squares_sound(magics[sq].mask.0, 0);
                assert(popcount(magics[sq].mask.0) <= 64);
                assert(false);
            }
        }
        Some((lookup, magics))
    }

    /// Whether a slider of the moving team reaches a square of `mask`.
    pub fn attacks(&self, board: &Board, piece_index: usize, mask: BitBoard) -> (r: bool)
        requires
            board.game.magic_shape(piece_index as int),
            piece_index < PIECE_KINDS,
        ensures
            r == magic_hits(
                board.game,
                piece_index as int,
                board.state@.pieces[piece_index as int].and(board.state@.team_to_move()),
                board.state@.occupied(),
                board.state@.team_to_move(),
                mask,
            ),
    {
        let team = board.state.team_to_move();
        let blockers = board.state.black.or(board.state.white);
        proof {
            crate::bitboard::bits::lemma_or_commutes(board.state.black.0, board.state.white.0);
        }
        let sliders = board.state.pieces[piece_index].and(team);
        let ghost mut seen: Seq<u32> = Seq::empty();
        let mut it = sliders.iter();
        let mut next = it.next();
        proof {
            lemma_squares_sound(sliders.0, 0);
        }
        while next.is_some()
            invariant
                board.game.magic_shape(piece_index as int),
                blockers == board.state@.occupied(),
                team == board.state@.team_to_move(),
                sliders == board.state@.pieces[piece_index as int].and(
                    board.state@.team_to_move(),
                ),
                next matches Some(sq) ==> seen.push(sq) + it.remaining() == sliders.squares(),
                next.is_none() ==> seen == sliders.squares(),
                forall|k: int|
                    #![trigger seen[k]]
                    0 <= k < seen.len() ==> seen[k] < 64 && !board.game.magic_reach(
                        piece_index as int,
                        seen[k] as usize,
                        blockers,
                    ).and_not(team).and(mask).is_set(),
                forall|k: int|
                    #![trigger sliders.squares()[k]]
                    0 <= k < sliders.squares().len() ==> sliders.squares()[k] < 64 && sliders.has(
                        sliders.squares()[k] as int,
                    ),
            decreases it.remaining().len() + (if next.is_some() { 1nat } else { 0nat }),
        {
            let slider = next.unwrap();
            proof {
                assert(sliders.squares()[seen.len() as int] == slider);
            }
            let moves = magic_moves(board, slider as usize, piece_index, blockers, team);
            if moves.and(mask).is_set() {
                proof {
                    assert(sliders.has(slider as int));
                }
                return true;
            }
            proof {
                seen = seen.push(slider);
            }
            let ghost before = it.remaining();
            next = it.next();
            proof {
                match next {
                    Some(sq) => {
                        assert(seen.push(sq) + it.remaining() =~= seen + before);
                    },
                    None => {
                        assert(seen =~= seen + before);
                    },
                }
            }
        }
        proof {
            assert forall|sq: int| sliders.has(sq) implies !board.game.magic_reach(
                piece_index as int,
                sq as usize,
                blockers,
            ).and_not(team).and(mask).is_set() by {
                let k = choose|k: int| 0 <= k < seen.len() && seen[k] == sq as u32;
                assert(seen[k] < 64);
            }
        }
        false
    }

    /// Adds the moves of the sliders of the moving team.
    pub fn add_actions(&self, board: &Board, actions: &mut Vec<Action>, piece_index: usize)
        requires
            board.game.magic_shape(piece_index as int),
            piece_index < PIECE_KINDS,
        ensures
            final(actions)@ == old(actions)@ + magic_actions(
                board.game,
                board.state@,
                piece_index as int,
            ),
            board.state@.wf() ==> board.state@.plain_moves(
                magic_actions(board.game, board.state@, piece_index as int),
                piece_index as int,
            ),
    {
        let team = board.state.team_to_move();
        let blockers = board.state.black.or(board.state.white);
        proof {
            crate::bitboard::bits::lemma_or_commutes(board.state.black.0, board.state.white.0);
        }
        let piece = piece_index as u8;
        let sliders = board.state.pieces[piece_index].and(team);
        let ghost start = actions@;
        let ghost reach = |sq: u32|
            board.game.magic_reach(piece_index as int, sq as usize, board.state@.occupied()).and_not(
                board.state@.team_to_move(),
            );
        let ghost mut seen: Seq<u32> = Seq::empty();
        let mut it = sliders.iter();
        let mut next = it.next();
        proof {
            lemma_squares_sound(sliders.0, 0);
        }
        while next.is_some()
            invariant
                board.game.magic_shape(piece_index as int),
                blockers == board.state@.occupied(),
                team == board.state@.team_to_move(),
                piece == piece_index,
                piece_index < PIECE_KINDS,
                start == old(actions)@,
                sliders == board.state@.pieces[piece_index as int].and(
                    board.state@.team_to_move(),
                ),
                reach == |sq: u32|
                    board.game.magic_reach(
                        piece_index as int,
                        sq as usize,
                        board.state@.occupied(),
                    ).and_not(board.state@.team_to_move()),
                next matches Some(sq) ==> seen.push(sq) + it.remaining() == sliders.squares(),
                next.is_none() ==> seen == sliders.squares(),
                actions@ == start + moves_of(seen, reach, piece),
                board.state@.wf() ==> board.state@.plain_moves(
                    moves_of(seen, reach, piece),
                    piece_index as int,
                ),
                forall|k: int|
                    #![trigger sliders.squares()[k]]
                    0 <= k < sliders.squares().len() ==> sliders.squares()[k] < 64 && sliders.has(
                        sliders.squares()[k] as int,
                    ),
            decreases it.remaining().len() + (if next.is_some() { 1nat } else { 0nat }),
        {
            let slider = next.unwrap();
            proof {
                assert(sliders.squares()[seen.len() as int] == slider);
            }
            let moves = magic_moves(board, slider as usize, piece_index, blockers, team);
            let ghost before_push = actions@;
            push_moves(actions, slider as u16, moves, piece);
            proof {
                assert(seen.push(slider).drop_last() =~= seen);
                let added = moves_of(seen.push(slider), reach, piece);
                assert(actions@ =~= start + added);
                if board.state@.wf() {
                    assert(board.state@.square_ok(slider as int));
                    assert forall|i: int| 0 <= i < added.len() implies board.state@.can_move(
                        #[trigger] added[i],
                    ) && added[i].info == 0 && added[i].piece == piece_index by {
                        if i >= moves_of(seen, reach, piece).len() {
                            assert(added[i] == actions@[start.len() + i]);
                        } else {
                            assert(added[i] == moves_of(seen, reach, piece)[i]);
                        }
                    }
                }
                seen = seen.push(slider);
            }
            let ghost before = it.remaining();
            next = it.next();
            proof {
                match next {
                    Some(sq) => {
                        assert(seen.push(sq) + it.remaining() =~= seen + before);
                    },
                    None => {
                        assert(seen =~= seen + before);
                    },
                }
            }
        }
    }
}

} // verus!
