//! Which moves the rules list, in terms of the pieces and their steps.
use vstd::prelude::*;
use crate::bitboard::{BitBoard, Edges};
use crate::bitboard::lemma_squares_sound;
use crate::chess::geometry::{chess_bounds, king_step, knight_step, lemma_coords, lemma_edges,
    on_board, row, slider_reaches};
use crate::chess::pieces::leapers::leaper::{leaper_actions, moves_of, moves_to};
use crate::chess::pieces::sliders::bishop::BishopMoves;
use crate::chess::pieces::sliders::magics::magic_actions;
use crate::chess::pieces::sliders::queen::QueenMoves;
use crate::chess::pieces::sliders::rook::RookMoves;
use crate::chess::pieces::sliders::slider::{SliderMoves, slider_actions, spec_list_moves};
use crate::bitboard::Bounds;
use crate::bitboard::{lemma_between_has, lemma_empty_iff, lemma_same_squares};
use crate::chess::attack::{attacks_some, checked, pawn_attacks};
use crate::chess::pieces::leapers::king::{castle_ok, castles_of, castles_with, king_castles};
use crate::chess::{chess_actions, legal_actions, legal_after, legal_among,
    spec_attacks};
use crate::chess::pieces::pawn::{capture_backs, en_passant_actions, en_passant_target, expand,
    pawn_actions, pawn_advance, pawn_left_reach, pawn_moves, pawn_origin, pawn_right_reach,
    promotes};
use crate::chess::{BISHOP, KING, KNIGHT, PAWN, QUEEN, ROOK};
use crate::game::action::{Action, ActionRecord};
use crate::game::{BoardView, Game, Team};

verus! {

/// The squares of a set, listed, are the squares of the set.
pub proof fn lemma_squares_contain(set: BitBoard, sq: u32)
    ensures
        set.squares().contains(sq) == set.has(sq as int),
{
    lemma_squares_sound(set.0, 0);
    if set.squares().contains(sq) {
        let k = choose|k: int| 0 <= k < set.squares().len() && set.squares()[k] == sq;
        assert(set.squares()[k] < 64);
    }
    if set.has(sq as int) {
        assert(crate::bitboard::bits::bit(set.0, sq as u64));
    }
}

/// The moves from one square to the squares of a set are the ordinary
/// moves from that square that end in the set.
pub proof fn lemma_moves_to_contain(from: u16, targets: BitBoard, piece: u8, a: Action)
    ensures
        moves_to(from, targets.squares(), piece).contains(a) == (a.from == from && a.piece == piece
            && a.info == 0 && targets.has(a.to as int)),
{
    let list = moves_to(from, targets.squares(), piece);
    lemma_squares_sound(targets.0, 0);
    if list.contains(a) {
        let k = choose|k: int| 0 <= k < list.len() && list[k] == a;
        assert(targets.squares()[k] < 64);
    }
    if a.from == from && a.piece == piece && a.info == 0 && targets.has(a.to as int) {
        lemma_squares_contain(targets, a.to as u32);
        let k = choose|k: int|
            0 <= k < targets.squares().len() && targets.squares()[k] == a.to as u32;
        assert(list[k] == a);
    }
}

/// The moves of the pieces on the listed squares are the ordinary moves
/// that start on one of them and end where `reach` says.
pub proof fn lemma_moves_of_list(
    origins: Seq<u32>,
    reach: spec_fn(u32) -> BitBoard,
    piece: u8,
    a: Action,
)
    requires
        forall|i: int| 0 <= i < origins.len() ==> origins[i] < 64,
    ensures
        moves_of(origins, reach, piece).contains(a) == (a.piece == piece && a.info == 0
            && origins.contains(a.from as u32) && reach(a.from as u32).has(a.to as int)),
    decreases origins.len(),
{
    let all = moves_of(origins, reach, piece);
    if origins.len() > 0 {
        let before = moves_of(origins.drop_last(), reach, piece);
        let last = moves_to(origins.last() as u16, reach(origins.last()).squares(), piece);
        lemma_moves_of_list(origins.drop_last(), reach, piece, a);
        lemma_moves_to_contain(origins.last() as u16, reach(origins.last()), piece, a);
        assert(all == before + last);
        if all.contains(a) {
            let k = choose|k: int| 0 <= k < all.len() && all[k] == a;
            if k < before.len() {
                assert(before[k] == a);
                assert(before.contains(a));
                let j = choose|j: int|
                    0 <= j < origins.drop_last().len() && origins.drop_last()[j] == a.from as u32;
                assert(origins[j] == a.from as u32);
            } else {
                assert(last[k - before.len()] == a);
                assert(last.contains(a));
                assert(origins[origins.len() - 1] == a.from as u32);
            }
        }
        if a.piece == piece && a.info == 0 && origins.contains(a.from as u32) && reach(
            a.from as u32,
        ).has(a.to as int) {
            let j = choose|j: int| 0 <= j < origins.len() && origins[j] == a.from as u32;
            if j < origins.len() - 1 {
                assert(origins.drop_last()[j] == a.from as u32);
                assert(origins.drop_last().contains(a.from as u32));
                let k = choose|k: int| 0 <= k < before.len() && before[k] == a;
                assert(all[k] == a);
            } else {
                assert(a.from == origins.last() as u16);
                let k = choose|k: int| 0 <= k < last.len() && last[k] == a;
                assert(all[before.len() + k] == a);
            }
        }
    }
}

/// The moves of the pieces of a set are the ordinary moves that start on a
/// square of the set and end where `reach` says.
pub proof fn lemma_moves_of(
    origins: BitBoard,
    reach: spec_fn(u32) -> BitBoard,
    piece: u8,
    a: Action,
)
    ensures
        moves_of(origins.squares(), reach, piece).contains(a) == (a.piece == piece && a.info == 0
            && origins.has(a.from as int) && reach(a.from as u32).has(a.to as int)),
{
    lemma_squares_sound(origins.0, 0);
    lemma_moves_of_list(origins.squares(), reach, piece, a);
    lemma_squares_contain(origins, a.from as u32);
}

/// Whether the move is an ordinary move of a piece of kind `kind` of the
/// team to move to a square that its team does not hold.
pub open spec fn plain_step(position: BoardView, kind: int, a: Action) -> bool {
    &&& a.piece == kind
    &&& a.info == 0
    &&& position.pieces[kind].has(a.from as int)
    &&& position.team_to_move().has(a.from as int)
    &&& !position.team_to_move().has(a.to as int)
}

impl Game {
    /// The moves that are listed for the knights, bishops, rooks, queens
    /// and kings, castling apart: the ordinary moves of a piece of the team
    /// to move to a square that its team does not hold and that the piece
    /// reaches, a knight or a king by its step, a bishop, a rook or a queen
    /// along one of its rays with nothing in the way.
    pub proof fn lemma_piece_actions(&self, position: BoardView, a: Action)
        requires
            self.chess_ok(),
        ensures
            leaper_actions(self.lookup[KNIGHT as int][0]@, position, KNIGHT as int).contains(a) == (
            plain_step(position, KNIGHT as int, a) && knight_step(a.from as int, a.to as int)),
            leaper_actions(self.lookup[KING as int][0]@, position, KING as int).contains(a) == (
            plain_step(position, KING as int, a) && king_step(a.from as int, a.to as int)),
            magic_actions(self, position, BISHOP as int).contains(a) == (plain_step(
                position,
                BISHOP as int,
                a,
            ) && slider_reaches(
                BishopMoves.directions(),
                a.from as int,
                a.to as int,
                position.occupied(),
                4,
            )),
            magic_actions(self, position, ROOK as int).contains(a) == (plain_step(
                position,
                ROOK as int,
                a,
            ) && slider_reaches(
                RookMoves.directions(),
                a.from as int,
                a.to as int,
                position.occupied(),
                4,
            )),
            slider_actions(self.lookup[QUEEN as int]@, position, QUEEN as int).contains(a) == (
            plain_step(position, QUEEN as int, a) && slider_reaches(
                QueenMoves.directions(),
                a.from as int,
                a.to as int,
                position.occupied(),
                8,
            )),
    {
        broadcast use crate::bitboard::group_bitboard_has;

        let team = position.team_to_move();
        let all = position.occupied();
        let knights = self.lookup[KNIGHT as int][0]@;
        let kings = self.lookup[KING as int][0]@;
        let queens = self.lookup[QUEEN as int]@;
        lemma_moves_of(
            position.pieces[KNIGHT as int].and(team),
            |sq: u32| knights[sq as int].and_not(team),
            KNIGHT as u8,
            a,
        );
        lemma_moves_of(
            position.pieces[KING as int].and(team),
            |sq: u32| kings[sq as int].and_not(team),
            KING as u8,
            a,
        );
        lemma_moves_of(
            position.pieces[BISHOP as int].and(team),
            |sq: u32| self.magic_reach(BISHOP as int, sq as usize, all).and_not(team),
            BISHOP as u8,
            a,
        );
        lemma_moves_of(
            position.pieces[ROOK as int].and(team),
            |sq: u32| self.magic_reach(ROOK as int, sq as usize, all).and_not(team),
            ROOK as u8,
            a,
        );
        lemma_moves_of(
            position.pieces[QUEEN as int].and(team),
            |sq: u32| spec_list_moves(queens, sq as usize, all).and_not(team),
            QUEEN as u8,
            a,
        );
        if a.from < 64 {
            self.lemma_chess_tables(a.from as usize, all, a.to as int);
        }
    }
}

/// Whether the tag fits a pawn's move that is listed with the tag `plain`
/// where it does not promote: where it promotes, the tag of one of the four
/// kinds that a pawn can turn into.
pub open spec fn pawn_tag(team: Team, bounds: Bounds, a: Action, plain: u8) -> bool {
    if promotes(team, bounds, a.to) {
        3 <= a.info <= 6
    } else {
        a.info == plain
    }
}

/// A pawn's move as it is listed holds the move with each tag that fits.
pub proof fn lemma_expand(base: Action, team: Team, bounds: Bounds, a: Action)
    ensures
        expand(base, team, bounds).contains(a) == (a.from == base.from && a.to == base.to
            && a.piece == base.piece && pawn_tag(team, bounds, a, base.info)),
{
    let list = expand(base, team, bounds);
    if list.contains(a) {
        let k = choose|k: int| 0 <= k < list.len() && list[k] == a;
        assert(list[k] == a);
    }
    if a.from == base.from && a.to == base.to && a.piece == base.piece && pawn_tag(
        team,
        bounds,
        a,
        base.info,
    ) {
        if promotes(team, bounds, a.to) {
            assert(list[a.info - 3] == a);
        } else {
            assert(list[0] == a);
        }
    }
}

/// The moves of the pawns that reach the listed targets are the moves to
/// one of the targets from `back` squares behind it, with a tag that fits.
pub proof fn lemma_pawn_moves_list(
    targets: Seq<u32>,
    team: Team,
    back: int,
    piece: u8,
    bounds: Bounds,
    a: Action,
)
    requires
        forall|i: int|
            0 <= i < targets.len() ==> targets[i] < 64 && 0 <= pawn_origin(
                team,
                #[trigger] targets[i] as int,
                back,
            ) < 64,
    ensures
        pawn_moves(targets, team, back, piece, bounds).contains(a) == (a.piece == piece
            && targets.contains(a.to as u32) && a.from == pawn_origin(team, a.to as int, back)
            && pawn_tag(team, bounds, a, 0)),
    decreases targets.len(),
{
    let all = pawn_moves(targets, team, back, piece, bounds);
    if targets.len() > 0 {
        let before = pawn_moves(targets.drop_last(), team, back, piece, bounds);
        let base = Action {
            from: pawn_origin(team, targets.last() as int, back) as u16,
            to: targets.last() as u16,
            piece,
            info: 0,
        };
        let last = expand(base, team, bounds);
        lemma_pawn_moves_list(targets.drop_last(), team, back, piece, bounds, a);
        lemma_expand(base, team, bounds, a);
        assert(targets[targets.len() - 1] == targets.last());
        assert(all == before + last);
        if all.contains(a) {
            let k = choose|k: int| 0 <= k < all.len() && all[k] == a;
            if k < before.len() {
                assert(before[k] == a);
                assert(before.contains(a));
                let j = choose|j: int|
                    0 <= j < targets.drop_last().len() && targets.drop_last()[j] == a.to as u32;
                assert(targets[j] == a.to as u32);
            } else {
                assert(last[k - before.len()] == a);
                assert(last.contains(a));
                assert(targets[targets.len() - 1] == a.to as u32);
            }
        }
        if a.piece == piece && targets.contains(a.to as u32) && a.from == pawn_origin(
            team,
            a.to as int,
            back,
        ) && pawn_tag(team, bounds, a, 0) {
            let j = choose|j: int| 0 <= j < targets.len() && targets[j] == a.to as u32;
            if j < targets.len() - 1 {
                assert(targets.drop_last()[j] == a.to as u32);
                assert(targets.drop_last().contains(a.to as u32));
                let k = choose|k: int| 0 <= k < before.len() && before[k] == a;
                assert(all[k] == a);
            } else {
                let k = choose|k: int| 0 <= k < last.len() && last[k] == a;
                assert(all[before.len() + k] == a);
            }
        }
    }
}

/// The moves of the pawns that reach the squares of a set are the moves to
/// a square of the set from `back` squares behind it, with a tag that fits.
pub proof fn lemma_pawn_moves(
    targets: BitBoard,
    team: Team,
    back: int,
    piece: u8,
    bounds: Bounds,
    a: Action,
)
    requires
        forall|t: int|
            #![trigger targets.has(t)]
            targets.has(t) ==> 0 <= pawn_origin(team, t, back) < 64,
    ensures
        pawn_moves(targets.squares(), team, back, piece, bounds).contains(a) == (a.piece == piece
            && targets.has(a.to as int) && a.from == pawn_origin(team, a.to as int, back)
            && pawn_tag(team, bounds, a, 0)),
{
    lemma_squares_sound(targets.0, 0);
    assert forall|i: int| 0 <= i < targets.squares().len() implies targets.squares()[i] < 64 && 0
        <= pawn_origin(team, #[trigger] targets.squares()[i] as int, back) < 64 by {
        assert(targets.has(targets.squares()[i] as int));
    }
    lemma_pawn_moves_list(targets.squares(), team, back, piece, bounds, a);
    lemma_squares_contain(targets, a.to as u32);
}

/// One row ahead, as `team` sees it, in squares.
pub open spec fn ahead(team: Team) -> int {
    match team {
        Team::White => 8,
        Team::Black => -8,
    }
}

/// Whether a pawn of `team` stands on `from`.
pub open spec fn own_pawn(position: BoardView, team: Team, from: int) -> bool {
    position.pieces[PAWN as int].has(from) && position.team(team).has(from)
}

/// Whether the move is a pawn's step of one row onto a free square.
pub open spec fn pawn_push(position: BoardView, team: Team, a: Action) -> bool {
    &&& own_pawn(position, team, a.from as int)
    &&& a.to == a.from + ahead(team)
    &&& a.to < 64
    &&& !position.occupied().has(a.to as int)
}

/// Whether the move is the step of two rows of a pawn that has not moved,
/// over a free square onto a free square.
pub open spec fn pawn_double(position: BoardView, team: Team, a: Action) -> bool {
    &&& own_pawn(position, team, a.from as int)
    &&& position.first_move.has(a.from as int)
    &&& a.to == a.from + 2 * ahead(team)
    &&& a.to < 64
    &&& !position.occupied().has(a.from + ahead(team))
    &&& !position.occupied().has(a.to as int)
}

/// Whether the move is a pawn's capture: one row ahead and one column
/// aside, onto a square of the other team.
pub open spec fn pawn_capture(position: BoardView, team: Team, a: Action) -> bool {
    &&& own_pawn(position, team, a.from as int)
    &&& pawn_attacks(team, a.from as int, a.to as int)
    &&& position.team(team.next()).has(a.to as int)
}

/// Whether the move is an en passant capture: one row ahead and one column
/// aside, onto the square that a pawn of the other team passed over in the
/// last ply.
pub open spec fn pawn_en_passant(
    position: BoardView,
    last: Option<ActionRecord>,
    team: Team,
    a: Action,
) -> bool {
    &&& own_pawn(position, team, a.from as int)
    &&& pawn_attacks(team, a.from as int, a.to as int)
    &&& en_passant_target(position, last, PAWN as int, team) == Some(a.to)
}

/// Whether the move is one of the moves of a pawn of `team`: a step, a
/// double step or a capture, with the tag 0 or, where the pawn reaches the
/// last row, the tag of a kind to turn into; or an en passant capture, with
/// the tag 1.
pub open spec fn pawn_move(
    position: BoardView,
    last: Option<ActionRecord>,
    team: Team,
    a: Action,
) -> bool {
    a.piece == PAWN && {
        ||| (pawn_tag(team, chess_bounds(), a, 0) && (pawn_push(position, team, a) || pawn_double(
            position,
            team,
            a,
        ) || pawn_capture(position, team, a)))
        ||| (pawn_tag(team, chess_bounds(), a, 1) && pawn_en_passant(position, last, team, a))
    }
}

/// The steps of one row that are listed.
pub proof fn lemma_pawn_pushes(position: BoardView, team: Team, a: Action)
    ensures
        pawn_moves(
            pawn_advance(position.pieces[PAWN as int].and(position.team(team)), team).and_not(
                position.occupied(),
            ).squares(),
            team,
            8,
            PAWN as u8,
            chess_bounds(),
        ).contains(a) == (a.piece == PAWN && pawn_tag(team, chess_bounds(), a, 0) && pawn_push(
            position,
            team,
            a,
        )),
{
    broadcast use crate::bitboard::group_bitboard_has;

    let pawns = position.pieces[PAWN as int].and(position.team(team));
    let moves = pawn_advance(pawns, team).and_not(position.occupied());
    lemma_pawn_moves(moves, team, 8, PAWN as u8, chess_bounds(), a);
}

/// The steps of two rows that are listed.
pub proof fn lemma_pawn_doubles(position: BoardView, team: Team, a: Action)
    ensures
        pawn_moves(
            pawn_advance(
                pawn_advance(
                    position.pieces[PAWN as int].and(position.team(team)).and(position.first_move),
                    team,
                ).and_not(position.occupied()),
                team,
            ).and_not(position.occupied()).squares(),
            team,
            16,
            PAWN as u8,
            chess_bounds(),
        ).contains(a) == (a.piece == PAWN && pawn_tag(team, chess_bounds(), a, 0) && pawn_double(
            position,
            team,
            a,
        )),
{
    broadcast use crate::bitboard::group_bitboard_has;

    let all = position.occupied();
    let pawns = position.pieces[PAWN as int].and(position.team(team));
    let first_moves = pawn_advance(
        pawn_advance(pawns.and(position.first_move), team).and_not(all),
        team,
    ).and_not(all);
    lemma_pawn_moves(first_moves, team, 16, PAWN as u8, chess_bounds(), a);
}

/// What the pawns of a team attack to their left and to their right,
/// square by square.
pub proof fn lemma_pawn_reach(position: BoardView, edges: Edges, team: Team, to: int)
    requires
        edges.wf(chess_bounds(), 1),
    ensures
        pawn_left_reach(position, edges, PAWN as int, team).has(to) == (on_board(to) && own_pawn(
            position,
            team,
            to + 1 - ahead(team),
        ) && pawn_attacks(team, to + 1 - ahead(team), to)),
        pawn_right_reach(position, edges, PAWN as int, team).has(to) == (on_board(to) && own_pawn(
            position,
            team,
            to - 1 - ahead(team),
        ) && pawn_attacks(team, to - 1 - ahead(team), to)),
        forall|from: int|
            #![trigger pawn_attacks(team, from, to)]
            pawn_attacks(team, from, to) ==> from == to + 1 - ahead(team) || from == to - 1
                - ahead(team),
{
    broadcast use crate::bitboard::group_bitboard_has;

    lemma_edges(edges, to + 1);
    lemma_edges(edges, to - 1);
    lemma_coords(to);
    lemma_coords(to + 1);
    lemma_coords(to - 1);
    lemma_coords(to + 1 - ahead(team));
    lemma_coords(to - 1 - ahead(team));
    assert forall|from: int| #![trigger pawn_attacks(team, from, to)] pawn_attacks(
        team,
        from,
        to,
    ) implies from == to + 1 - ahead(team) || from == to - 1 - ahead(team) by {
        lemma_coords(from);
    }
}

/// The captures that are listed.
pub proof fn lemma_pawn_takes(position: BoardView, edges: Edges, team: Team, a: Action)
    requires
        edges.wf(chess_bounds(), 1),
    ensures
        (pawn_moves(
            pawn_left_reach(position, edges, PAWN as int, team).and(
                position.team(team.next()),
            ).squares(),
            team,
            capture_backs(team).0,
            PAWN as u8,
            chess_bounds(),
        ).contains(a) || pawn_moves(
            pawn_right_reach(position, edges, PAWN as int, team).and(
                position.team(team.next()),
            ).squares(),
            team,
            capture_backs(team).1,
            PAWN as u8,
            chess_bounds(),
        ).contains(a)) == (a.piece == PAWN && pawn_tag(team, chess_bounds(), a, 0) && pawn_capture(
            position,
            team,
            a,
        )),
{
    let enemy = position.team(team.next());
    let backs = capture_backs(team);
    let left_reach = pawn_left_reach(position, edges, PAWN as int, team);
    let right_reach = pawn_right_reach(position, edges, PAWN as int, team);
    let left = left_reach.and(enemy);
    let right = right_reach.and(enemy);
    assert forall|t: int| #![trigger left.has(t)] left.has(t) implies 0 <= pawn_origin(
        team,
        t,
        backs.0,
    ) < 64 by {
        crate::bitboard::lemma_and_has(left_reach, enemy, t);
        lemma_pawn_reach(position, edges, team, t);
    }
    assert forall|t: int| #![trigger right.has(t)] right.has(t) implies 0 <= pawn_origin(
        team,
        t,
        backs.1,
    ) < 64 by {
        crate::bitboard::lemma_and_has(right_reach, enemy, t);
        lemma_pawn_reach(position, edges, team, t);
    }
    lemma_pawn_moves(left, team, backs.0, PAWN as u8, chess_bounds(), a);
    lemma_pawn_moves(right, team, backs.1, PAWN as u8, chess_bounds(), a);
    crate::bitboard::lemma_and_has(left_reach, enemy, a.to as int);
    crate::bitboard::lemma_and_has(right_reach, enemy, a.to as int);
    lemma_pawn_reach(position, edges, team, a.to as int);
}

/// The en passant captures that are listed.
pub proof fn lemma_pawn_passing(
    position: BoardView,
    last: Option<ActionRecord>,
    edges: Edges,
    team: Team,
    a: Action,
)
    requires
        edges.wf(chess_bounds(), 1),
    ensures
        en_passant_actions(position, last, edges, chess_bounds(), PAWN as int, team).contains(a)
            == (a.piece == PAWN && pawn_tag(team, chess_bounds(), a, 1) && pawn_en_passant(
            position,
            last,
            team,
            a,
        )),
{
    let bounds = chess_bounds();
    let backs = capture_backs(team);
    let left_reach = pawn_left_reach(position, edges, PAWN as int, team);
    let right_reach = pawn_right_reach(position, edges, PAWN as int, team);
    let passing = en_passant_actions(position, last, edges, bounds, PAWN as int, team);
    match en_passant_target(position, last, PAWN as int, team) {
        Some(square) => {
            let from_left = Action {
                from: pawn_origin(team, square as int, backs.0) as u16,
                to: square,
                piece: PAWN as u8,
                info: 1,
            };
            let from_right = Action {
                from: pawn_origin(team, square as int, backs.1) as u16,
                to: square,
                piece: PAWN as u8,
                info: 1,
            };
            lemma_expand(from_left, team, bounds, a);
            lemma_expand(from_right, team, bounds, a);
            lemma_pawn_reach(position, edges, team, square as int);
            let by_left = if left_reach.has(square as int) {
                expand(from_left, team, bounds)
            } else {
                Seq::empty()
            };
            let by_right = if right_reach.has(square as int) {
                expand(from_right, team, bounds)
            } else {
                Seq::empty()
            };
            assert(passing == by_left + by_right);
            lemma_concat_contains(by_left, by_right, a);
            assert(!Seq::<Action>::empty().contains(a));
        },
        None => {
            assert(!Seq::<Action>::empty().contains(a));
        },
    }
}

/// The moves that are listed for the pawns of a team are the moves of a
/// pawn of that team.
pub proof fn lemma_pawn_actions(
    position: BoardView,
    last: Option<ActionRecord>,
    edges: Edges,
    team: Team,
    a: Action,
)
    requires
        edges.wf(chess_bounds(), 1),
    ensures
        pawn_actions(position, last, edges, chess_bounds(), PAWN as int, team).contains(a)
            == pawn_move(position, last, team, a),
{
    let bounds = chess_bounds();
    let all = position.occupied();
    let pawns = position.pieces[PAWN as int].and(position.team(team));
    let enemy = position.team(team.next());
    let backs = capture_backs(team);
    let moves = pawn_advance(pawns, team).and_not(all);
    let first_moves = pawn_advance(
        pawn_advance(pawns.and(position.first_move), team).and_not(all),
        team,
    ).and_not(all);
    let left = pawn_left_reach(position, edges, PAWN as int, team).and(enemy);
    let right = pawn_right_reach(position, edges, PAWN as int, team).and(enemy);
    let pushes = pawn_moves(moves.squares(), team, 8, PAWN as u8, bounds);
    let doubles = pawn_moves(first_moves.squares(), team, 16, PAWN as u8, bounds);
    let lefts = pawn_moves(left.squares(), team, backs.0, PAWN as u8, bounds);
    let rights = pawn_moves(right.squares(), team, backs.1, PAWN as u8, bounds);
    let passing = en_passant_actions(position, last, edges, bounds, PAWN as int, team);
    let listed = pawn_actions(position, last, edges, bounds, PAWN as int, team);
    assert(listed == pushes + doubles + lefts + rights + passing);
    lemma_pawn_pushes(position, team, a);
    lemma_pawn_doubles(position, team, a);
    lemma_pawn_takes(position, edges, team, a);
    lemma_pawn_passing(position, last, edges, team, a);
    lemma_concat_contains(pushes, doubles, a);
    lemma_concat_contains(pushes + doubles, lefts, a);
    lemma_concat_contains(pushes + doubles + lefts, rights, a);
    lemma_concat_contains(pushes + doubles + lefts + rights, passing, a);
}

/// A move is in one list after another exactly if it is in one of them.
pub proof fn lemma_concat_contains(first: Seq<Action>, second: Seq<Action>, a: Action)
    ensures
        (first + second).contains(a) == (first.contains(a) || second.contains(a)),
{
    let both = first + second;
    if both.contains(a) {
        let k = choose|k: int| 0 <= k < both.len() && both[k] == a;
        if k < first.len() {
            assert(first[k] == a);
        } else {
            assert(second[k - first.len()] == a);
        }
    }
    if first.contains(a) {
        let k = choose|k: int| 0 <= k < first.len() && first[k] == a;
        assert(both[k] == a);
    }
    if second.contains(a) {
        let k = choose|k: int| 0 <= k < second.len() && second[k] == a;
        assert(both[first.len() + k] == a);
    }
}

/// The ways in which one king castles with the listed rooks are the moves
/// with the tag 1 from the king's square to the square of one of the rooks
/// with which it may castle.
pub proof fn lemma_castles_with(
    game: &Game,
    position: BoardView,
    king: u32,
    rooks: Seq<u32>,
    piece: u8,
    a: Action,
)
    requires
        king < 64,
        forall|i: int| 0 <= i < rooks.len() ==> rooks[i] < 64,
    ensures
        castles_with(game, position, king, rooks, piece).contains(a) == (a.from == king && a.piece
            == piece && a.info == 1 && rooks.contains(a.to as u32) && castle_ok(
            game,
            position,
            king,
            a.to as u32,
        )),
    decreases rooks.len(),
{
    let all = castles_with(game, position, king, rooks, piece);
    if rooks.len() > 0 {
        let before = castles_with(game, position, king, rooks.drop_last(), piece);
        let way = Action { from: king as u16, to: rooks.last() as u16, piece, info: 1 };
        let last = if castle_ok(game, position, king, rooks.last()) {
            seq![way]
        } else {
            Seq::empty()
        };
        lemma_castles_with(game, position, king, rooks.drop_last(), piece, a);
        lemma_concat_contains(before, last, a);
        assert(all == before + last);
        assert(rooks[rooks.len() - 1] == rooks.last());
        if last.contains(a) {
            let k = choose|k: int| 0 <= k < last.len() && last[k] == a;
            assert(a == way);
            assert(rooks.contains(a.to as u32));
        }
        if before.contains(a) {
            let j = choose|j: int|
                0 <= j < rooks.drop_last().len() && rooks.drop_last()[j] == a.to as u32;
            assert(rooks[j] == a.to as u32);
        }
        if a.from == king && a.piece == piece && a.info == 1 && rooks.contains(a.to as u32)
            && castle_ok(game, position, king, a.to as u32) {
            let j = choose|j: int| 0 <= j < rooks.len() && rooks[j] == a.to as u32;
            if j < rooks.len() - 1 {
                assert(rooks.drop_last()[j] == a.to as u32);
                assert(rooks.drop_last().contains(a.to as u32));
            } else {
                assert(last[0] == a);
            }
        }
    }
}

/// The ways in which the listed kings castle with the listed rooks.
pub proof fn lemma_castles_of(
    game: &Game,
    position: BoardView,
    kings: Seq<u32>,
    rooks: Seq<u32>,
    piece: u8,
    a: Action,
)
    requires
        forall|i: int| 0 <= i < kings.len() ==> kings[i] < 64,
        forall|i: int| 0 <= i < rooks.len() ==> rooks[i] < 64,
    ensures
        castles_of(game, position, kings, rooks, piece).contains(a) == (a.piece == piece && a.info
            == 1 && kings.contains(a.from as u32) && rooks.contains(a.to as u32) && castle_ok(
            game,
            position,
            a.from as u32,
            a.to as u32,
        )),
    decreases kings.len(),
{
    let all = castles_of(game, position, kings, rooks, piece);
    if kings.len() > 0 {
        let before = castles_of(game, position, kings.drop_last(), rooks, piece);
        let last = castles_with(game, position, kings.last(), rooks, piece);
        lemma_castles_of(game, position, kings.drop_last(), rooks, piece, a);
        lemma_castles_with(game, position, kings.last(), rooks, piece, a);
        lemma_concat_contains(before, last, a);
        assert(all == before + last);
        assert(kings[kings.len() - 1] == kings.last());
        if before.contains(a) {
            let j = choose|j: int|
                0 <= j < kings.drop_last().len() && kings.drop_last()[j] == a.from as u32;
            assert(kings[j] == a.from as u32);
        }
        if a.piece == piece && a.info == 1 && kings.contains(a.from as u32) && rooks.contains(
            a.to as u32,
        ) && castle_ok(game, position, a.from as u32, a.to as u32) {
            let j = choose|j: int| 0 <= j < kings.len() && kings[j] == a.from as u32;
            if j < kings.len() - 1 {
                assert(kings.drop_last()[j] == a.from as u32);
                assert(kings.drop_last().contains(a.from as u32));
            }
        }
    }
}

/// Whether the king on `from` may castle with the rook on `to`: nothing
/// stands between them, the squares on which they land are on the board
/// and free, and the other team attacks no square from the king's to the
/// one on which it lands.
pub open spec fn may_castle(position: BoardView, from: int, to: int) -> bool {
    let king_to = BoardView::castled_king(from as u16, to as u16);
    let rook_to = BoardView::castled_rook(from as u16, to as u16);
    let all = position.occupied();
    &&& forall|sq: int| #![trigger all.has(sq)] (from < sq < to || to < sq < from) ==> !all.has(sq)
    &&& 0 <= king_to < 64
    &&& (king_to == to || !all.has(king_to))
    &&& (rook_to == to || !all.has(rook_to))
    &&& !attacks_some(
        position.passed(),
        BitBoard::between_inclusive(from as usize, king_to as usize),
    )
}

/// Whether the move is castling: the king of the team to move and a rook of
/// that team, neither of which has moved, may castle; the move names their
/// squares and carries the tag 1.
pub open spec fn castling(position: BoardView, a: Action) -> bool {
    let team = position.team_to_move();
    &&& a.piece == KING
    &&& a.info == 1
    &&& position.pieces[KING as int].has(a.from as int)
    &&& team.has(a.from as int)
    &&& position.first_move.has(a.from as int)
    &&& position.pieces[ROOK as int].has(a.to as int)
    &&& team.has(a.to as int)
    &&& position.first_move.has(a.to as int)
    &&& may_castle(position, a.from as int, a.to as int)
}

impl Game {
    /// The rules let a king castle with a rook exactly if it may.
    pub proof fn lemma_castle_ok(&self, position: BoardView, king: u32, rook: u32)
        requires
            self.chess_ok(),
            position.wf(),
            king < 64,
            rook < 64,
        ensures
            castle_ok(self, position, king, rook) == may_castle(position, king as int, rook as int),
    {
        let all = position.occupied();
        let king_to = BoardView::castled_king(king as u16, rook as u16);
        let between = BitBoard::between(king as usize, rook as usize);
        lemma_empty_iff(between.and(all));
        assert forall|sq: int| between.and(all).has(sq) == ((king < sq < rook || rook < sq < king)
            && all.has(sq)) by {
            lemma_between_has(king as usize, rook as usize, sq);
            crate::bitboard::lemma_and_has(between, all, sq);
        }
        if between.and(all).is_set() {
            let sq = choose|sq: int| between.and(all).has(sq);
            assert(all.has(sq));
        }
        if 0 <= king_to < 64 {
            let path = BitBoard::between_inclusive(king as usize, king_to as usize);
            let mask = spec_attacks(self, position.passed(), path);
            let with_king = path.or(BitBoard::index(king as u16));
            assert forall|sq: int| 0 <= sq < 64 implies with_king.and(mask).has(sq) == mask.and(
                path,
            ).has(sq) by {
                lemma_between_has(king as usize, king_to as usize, sq);
                crate::bitboard::lemma_or_has(path, BitBoard::index(king as u16), sq);
                crate::bitboard::lemma_index_has(king as u16, sq);
                crate::bitboard::lemma_and_has(with_king, mask, sq);
                crate::bitboard::lemma_and_has(mask, path, sq);
            }
            lemma_same_squares(with_king.and(mask), mask.and(path));
            position.lemma_passed_wf();
            self.lemma_attacks(position.passed(), path);
        }
    }

    /// The ways to castle that are listed are the moves that are castling.
    pub proof fn lemma_king_castles(&self, position: BoardView, a: Action)
        requires
            self.chess_ok(),
            position.wf(),
        ensures
            king_castles(self, position, KING as int).contains(a) == castling(position, a),
    {
        let team = position.team_to_move();
        let kings = position.pieces[KING as int].and(team).and(position.first_move);
        let rooks = position.pieces[ROOK as int].and(team).and(position.first_move);
        lemma_squares_sound(kings.0, 0);
        lemma_squares_sound(rooks.0, 0);
        lemma_castles_of(self, position, kings.squares(), rooks.squares(), KING as u8, a);
        lemma_squares_contain(kings, a.from as u32);
        lemma_squares_contain(rooks, a.to as u32);
        crate::bitboard::lemma_and_has(position.pieces[KING as int], team, a.from as int);
        crate::bitboard::lemma_and_has(
            position.pieces[KING as int].and(team),
            position.first_move,
            a.from as int,
        );
        crate::bitboard::lemma_and_has(position.pieces[ROOK as int], team, a.to as int);
        crate::bitboard::lemma_and_has(
            position.pieces[ROOK as int].and(team),
            position.first_move,
            a.to as int,
        );
        if a.from < 64 && a.to < 64 {
            self.lemma_castle_ok(position, a.from as u32, a.to as u32);
        }
    }
}

/// Whether the move is one of the moves of the team to move, whether or
/// not it leaves its king attacked: a pawn's move; the ordinary move of a
/// knight or a king by its step, or of a bishop, a rook or a queen along
/// one of its rays with nothing in the way, to a square that its team does
/// not hold; or castling.
pub open spec fn chess_move(position: BoardView, last: Option<ActionRecord>, a: Action) -> bool {
    let from = a.from as int;
    let to = a.to as int;
    let all = position.occupied();
    ||| pawn_move(position, last, position.moving_team, a)
    ||| (plain_step(position, KNIGHT as int, a) && knight_step(from, to))
    ||| (plain_step(position, BISHOP as int, a) && slider_reaches(
        BishopMoves.directions(),
        from,
        to,
        all,
        4,
    ))
    ||| (plain_step(position, ROOK as int, a) && slider_reaches(
        RookMoves.directions(),
        from,
        to,
        all,
        4,
    ))
    ||| (plain_step(position, QUEEN as int, a) && slider_reaches(
        QueenMoves.directions(),
        from,
        to,
        all,
        8,
    ))
    ||| (plain_step(position, KING as int, a) && king_step(from, to))
    ||| castling(position, a)
}

/// Every move of the team to move is one that the position allows.
pub proof fn lemma_move_valid(position: BoardView, last: Option<ActionRecord>, a: Action)
    requires
        position.wf(),
        chess_move(position, last, a),
    ensures
        position.valid_action(a),
{
    broadcast use crate::bitboard::group_bitboard_has;

    let from = a.from as int;
    let to = a.to as int;
    lemma_coords(from);
    lemma_coords(to);
    if pawn_move(position, last, position.moving_team, a) {
        assert(position.square_ok(from));
        assert(position.square_ok(to));
        if pawn_en_passant(position, last, position.moving_team, a) && pawn_tag(
            position.moving_team,
            chess_bounds(),
            a,
            1,
        ) {
            let taken = position.en_passant_victim(a.to);
            assert(position.square_ok(taken));
        }
    } else if castling(position, a) {
        assert(position.square_ok(from));
        assert(position.square_ok(to));
    } else {
        assert(position.square_ok(from));
        assert(on_board(to));
    }
}

/// Whether the move is a legal move of the team to move: one of its moves
/// after which no piece of the other team attacks a square on which one of
/// its kings stands.
pub open spec fn legal_move(position: BoardView, last: Option<ActionRecord>, a: Action) -> bool {
    chess_move(position, last, a) && !checked(position.played(a), position.moving_team)
}

/// Those of the moves that are legal are the moves of the list that are.
pub proof fn lemma_legal_among(game: &Game, position: BoardView, actions: Seq<Action>, a: Action)
    ensures
        legal_among(game, position, actions).contains(a) == (actions.contains(a) && legal_after(
            game,
            position,
            a,
        )),
    decreases actions.len(),
{
    let all = legal_among(game, position, actions);
    if actions.len() > 0 {
        let before = legal_among(game, position, actions.drop_last());
        let last = if legal_after(game, position, actions.last()) {
            seq![actions.last()]
        } else {
            Seq::empty()
        };
        lemma_legal_among(game, position, actions.drop_last(), a);
        lemma_concat_contains(before, last, a);
        assert(all == before + last);
        assert(actions[actions.len() - 1] == actions.last());
        if last.contains(a) {
            let k = choose|k: int| 0 <= k < last.len() && last[k] == a;
            assert(a == actions.last());
        }
        if actions.drop_last().contains(a) {
            let j = choose|j: int| 0 <= j < actions.drop_last().len() && actions.drop_last()[j] == a;
            assert(actions[j] == a);
        }
        if actions.contains(a) && legal_after(game, position, a) {
            let j = choose|j: int| 0 <= j < actions.len() && actions[j] == a;
            if j < actions.len() - 1 {
                assert(actions.drop_last()[j] == a);
            } else {
                assert(last[0] == a);
            }
        }
    }
}

impl Game {
    /// The moves that the rules list for the team to move are its moves:
    /// nothing is listed that is no move of chess, and no move of chess is
    /// left out.
    pub proof fn lemma_chess_actions(
        &self,
        position: BoardView,
        last: Option<ActionRecord>,
        a: Action,
    )
        requires
            self.chess_ok(),
            position.wf(),
        ensures
            chess_actions(self, position, last).contains(a) == chess_move(position, last, a),
    {
        let pawns = pawn_actions(
            position,
            last,
            self.edges[0],
            self.bounds,
            PAWN as int,
            position.moving_team,
        );
        let knights = leaper_actions(self.lookup[KNIGHT as int][0]@, position, KNIGHT as int);
        let bishops = magic_actions(self, position, BISHOP as int);
        let rooks = magic_actions(self, position, ROOK as int);
        let queens = slider_actions(self.lookup[QUEEN as int]@, position, QUEEN as int);
        let kings = leaper_actions(self.lookup[KING as int][0]@, position, KING as int);
        let castles = king_castles(self, position, KING as int);
        assert(self.bounds == chess_bounds());
        lemma_pawn_actions(position, last, self.edges[0], position.moving_team, a);
        self.lemma_piece_actions(position, a);
        self.lemma_king_castles(position, a);
        lemma_concat_contains(pawns, knights, a);
        lemma_concat_contains(pawns + knights, bishops, a);
        lemma_concat_contains(pawns + knights + bishops, rooks, a);
        lemma_concat_contains(pawns + knights + bishops + rooks, queens, a);
        lemma_concat_contains(pawns + knights + bishops + rooks + queens, kings, a);
        lemma_concat_contains(pawns + knights + bishops + rooks + queens + kings, castles, a);
    }

    /// The legal moves that are listed for the team to move are the legal
    /// moves of chess.
    pub proof fn lemma_legal_actions(
        &self,
        position: BoardView,
        last: Option<ActionRecord>,
        a: Action,
    )
        requires
            self.chess_ok(),
            position.wf(),
        ensures
            legal_actions(self, position, last).contains(a) == legal_move(position, last, a),
    {
        let listed = chess_actions(self, position, last);
        lemma_legal_among(self, position, listed, a);
        self.lemma_chess_actions(position, last, a);
        if chess_move(position, last, a) {
            lemma_move_valid(position, last, a);
            position.lemma_played_wf(a);
            self.lemma_in_check(position.played(a), position.moving_team);
        }
    }
}

} // verus!
