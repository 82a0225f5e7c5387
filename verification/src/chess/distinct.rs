//! That no move is listed twice.
use vstd::prelude::*;
use crate::bitboard::{BitBoard, Bounds, Edges};
use crate::bitboard::lemma_squares_sound;
use crate::chess::geometry::{chess_bounds, lemma_coords};
use crate::chess::moves::{lemma_castles_with, lemma_concat_contains, lemma_expand,
    lemma_legal_among, lemma_moves_of_list, lemma_moves_to_contain, lemma_pawn_doubles,
    lemma_pawn_moves_list, lemma_pawn_passing, lemma_pawn_pushes, lemma_pawn_reach,
    lemma_pawn_takes};
use crate::chess::pieces::leapers::king::{castle_ok, castles_of, castles_with, king_castles};
use crate::chess::pieces::leapers::leaper::{leaper_actions, moves_of, moves_to};
use crate::chess::pieces::pawn::{capture_backs, en_passant_actions, en_passant_target, expand,
    pawn_actions, pawn_advance, pawn_left_reach, pawn_moves, pawn_origin, pawn_right_reach};
use crate::chess::pieces::sliders::magics::magic_actions;
use crate::chess::pieces::sliders::slider::{slider_actions, spec_list_moves};
use crate::chess::{BISHOP, KING, KNIGHT, PAWN, QUEEN, ROOK, chess_actions, legal_actions,
    legal_after, legal_among};
use crate::game::action::{Action, ActionRecord};
use crate::game::{BoardView, Game, Team};

verus! {

/// Whether the numbers ascend strictly, so that none comes twice.
pub open spec fn ascending(list: Seq<u32>) -> bool {
    forall|j: int, k: int| 0 <= j < k < list.len() ==> list[j] < list[k]
}

/// The squares of a set are listed in ascending order, each below 64.
pub proof fn lemma_squares_ascend(set: BitBoard)
    ensures
        ascending(set.squares()),
        forall|k: int| 0 <= k < set.squares().len() ==> set.squares()[k] < 64,
{
    lemma_squares_sound(set.0, 0);
}

/// Two lists without a move that comes twice, which share no move, make a
/// list without a move that comes twice.
pub proof fn lemma_concat_distinct(first: Seq<Action>, second: Seq<Action>)
    requires
        first.no_duplicates(),
        second.no_duplicates(),
        forall|a: Action| first.contains(a) ==> !second.contains(a),
    ensures
        (first + second).no_duplicates(),
{
    let both = first + second;
    assert forall|i: int, j: int| 0 <= i < both.len() && 0 <= j < both.len() && i != j implies both[i]
        != both[j] by {
        if i < first.len() && j >= first.len() {
            assert(first.contains(both[i]));
            assert(second[j - first.len()] == both[j]);
            assert(second.contains(both[j]));
        } else if j < first.len() && i >= first.len() {
            assert(first.contains(both[j]));
            assert(second[i - first.len()] == both[i]);
            assert(second.contains(both[i]));
        } else if i < first.len() {
            assert(first[i] != first[j]);
        } else {
            assert(second[i - first.len()] != second[j - first.len()]);
        }
    }
}

/// The moves from one square to the squares of an ascending list come once
/// each.
pub proof fn lemma_moves_to_distinct(from: u16, targets: Seq<u32>, piece: u8)
    requires
        ascending(targets),
        forall|k: int| 0 <= k < targets.len() ==> targets[k] < 64,
    ensures
        moves_to(from, targets, piece).no_duplicates(),
{
    let list = moves_to(from, targets, piece);
    assert forall|i: int, j: int| 0 <= i < list.len() && 0 <= j < list.len() && i != j implies list[i]
        != list[j] by {
        if i < j {
            assert(targets[i] < targets[j]);
        } else {
            assert(targets[j] < targets[i]);
        }
    }
}

/// The moves of the pieces on the squares of an ascending list come once
/// each.
pub proof fn lemma_moves_of_distinct(origins: Seq<u32>, reach: spec_fn(u32) -> BitBoard, piece: u8)
    requires
        ascending(origins),
        forall|k: int| 0 <= k < origins.len() ==> origins[k] < 64,
    ensures
        moves_of(origins, reach, piece).no_duplicates(),
    decreases origins.len(),
{
    if origins.len() > 0 {
        let before = moves_of(origins.drop_last(), reach, piece);
        let last = moves_to(origins.last() as u16, reach(origins.last()).squares(), piece);
        lemma_moves_of_distinct(origins.drop_last(), reach, piece);
        lemma_squares_ascend(reach(origins.last()));
        lemma_moves_to_distinct(origins.last() as u16, reach(origins.last()).squares(), piece);
        assert forall|a: Action| before.contains(a) implies !last.contains(a) by {
            lemma_moves_of_list(origins.drop_last(), reach, piece, a);
            lemma_moves_to_contain(origins.last() as u16, reach(origins.last()), piece, a);
            let j = choose|j: int|
                0 <= j < origins.drop_last().len() && origins.drop_last()[j] == a.from as u32;
            assert(origins[j] < origins[origins.len() - 1]);
        }
        lemma_concat_distinct(before, last);
    }
}

/// A pawn's move as it is listed comes once with each tag.
pub proof fn lemma_expand_distinct(base: Action, team: Team, bounds: Bounds)
    ensures
        expand(base, team, bounds).no_duplicates(),
{
}

/// The moves of the pawns that reach the squares of an ascending list come
/// once each.
pub proof fn lemma_pawn_moves_distinct(
    targets: Seq<u32>,
    team: Team,
    back: int,
    piece: u8,
    bounds: Bounds,
)
    requires
        ascending(targets),
        forall|i: int|
            0 <= i < targets.len() ==> targets[i] < 64 && 0 <= pawn_origin(
                team,
                #[trigger] targets[i] as int,
                back,
            ) < 64,
    ensures
        pawn_moves(targets, team, back, piece, bounds).no_duplicates(),
    decreases targets.len(),
{
    if targets.len() > 0 {
        let before = pawn_moves(targets.drop_last(), team, back, piece, bounds);
        let base = Action {
            from: pawn_origin(team, targets.last() as int, back) as u16,
            to: targets.last() as u16,
            piece,
            info: 0,
        };
        let last = expand(base, team, bounds);
        lemma_pawn_moves_distinct(targets.drop_last(), team, back, piece, bounds);
        lemma_expand_distinct(base, team, bounds);
        assert forall|a: Action| before.contains(a) implies !last.contains(a) by {
            lemma_pawn_moves_list(targets.drop_last(), team, back, piece, bounds, a);
            lemma_expand(base, team, bounds, a);
            let j = choose|j: int|
                0 <= j < targets.drop_last().len() && targets.drop_last()[j] == a.to as u32;
            assert(targets[j] < targets[targets.len() - 1]);
        }
        lemma_concat_distinct(before, last);
    }
}

/// The ways in which one king castles with the rooks of an ascending list
/// come once each.
pub proof fn lemma_castles_with_distinct(
    game: &Game,
    position: BoardView,
    king: u32,
    rooks: Seq<u32>,
    piece: u8,
)
    requires
        king < 64,
        ascending(rooks),
        forall|i: int| 0 <= i < rooks.len() ==> rooks[i] < 64,
    ensures
        castles_with(game, position, king, rooks, piece).no_duplicates(),
    decreases rooks.len(),
{
    if rooks.len() > 0 {
        let before = castles_with(game, position, king, rooks.drop_last(), piece);
        let way = Action { from: king as u16, to: rooks.last() as u16, piece, info: 1 };
        let last = if castle_ok(game, position, king, rooks.last()) {
            seq![way]
        } else {
            Seq::empty()
        };
        lemma_castles_with_distinct(game, position, king, rooks.drop_last(), piece);
        assert forall|a: Action| before.contains(a) implies !last.contains(a) by {
            lemma_castles_with(game, position, king, rooks.drop_last(), piece, a);
            let j = choose|j: int|
                0 <= j < rooks.drop_last().len() && rooks.drop_last()[j] == a.to as u32;
            assert(rooks[j] < rooks[rooks.len() - 1]);
            if last.contains(a) {
                let k = choose|k: int| 0 <= k < last.len() && last[k] == a;
                assert(a == way);
            }
        }
        lemma_concat_distinct(before, last);
    }
}

/// The ways in which the kings of an ascending list castle with the rooks
/// of an ascending list come once each.
pub proof fn lemma_castles_of_distinct(
    game: &Game,
    position: BoardView,
    kings: Seq<u32>,
    rooks: Seq<u32>,
    piece: u8,
)
    requires
        ascending(kings),
        ascending(rooks),
        forall|i: int| 0 <= i < kings.len() ==> kings[i] < 64,
        forall|i: int| 0 <= i < rooks.len() ==> rooks[i] < 64,
    ensures
        castles_of(game, position, kings, rooks, piece).no_duplicates(),
    decreases kings.len(),
{
    if kings.len() > 0 {
        let before = castles_of(game, position, kings.drop_last(), rooks, piece);
        let last = castles_with(game, position, kings.last(), rooks, piece);
        lemma_castles_of_distinct(game, position, kings.drop_last(), rooks, piece);
        lemma_castles_with_distinct(game, position, kings.last(), rooks, piece);
        assert forall|a: Action| before.contains(a) implies !last.contains(a) by {
            crate::chess::moves::lemma_castles_of(
                game,
                position,
                kings.drop_last(),
                rooks,
                piece,
                a,
            );
            lemma_castles_with(game, position, kings.last(), rooks, piece, a);
            let j = choose|j: int|
                0 <= j < kings.drop_last().len() && kings.drop_last()[j] == a.from as u32;
            assert(kings[j] < kings[kings.len() - 1]);
        }
        lemma_concat_distinct(before, last);
    }
}

/// No move of the pawns is listed twice.
pub proof fn lemma_pawn_actions_distinct(
    position: BoardView,
    last: Option<ActionRecord>,
    edges: Edges,
    team: Team,
)
    requires
        edges.wf(chess_bounds(), 1),
        position.wf(),
    ensures
        pawn_actions(position, last, edges, chess_bounds(), PAWN as int, team).no_duplicates(),
{
    broadcast use crate::bitboard::group_bitboard_has;

    let bounds = chess_bounds();
    let all = position.occupied();
    let pawns = position.pieces[PAWN as int].and(position.team(team));
    let enemy = position.team(team.next());
    let backs = capture_backs(team);
    let moves = pawn_advance(pawns, team).and_not(all);
    let first_moves = pawn_advance(
        pawn_advance(pawns.and(position.first_move), team).and_not(all),
        team,
    ).and_not(all);
    let left_reach = pawn_left_reach(position, edges, PAWN as int, team);
    let right_reach = pawn_right_reach(position, edges, PAWN as int, team);
    let left = left_reach.and(enemy);
    let right = right_reach.and(enemy);
    let pushes = pawn_moves(moves.squares(), team, 8, PAWN as u8, bounds);
    let doubles = pawn_moves(first_moves.squares(), team, 16, PAWN as u8, bounds);
    let lefts = pawn_moves(left.squares(), team, backs.0, PAWN as u8, bounds);
    let rights = pawn_moves(right.squares(), team, backs.1, PAWN as u8, bounds);
    let passing = en_passant_actions(position, last, edges, bounds, PAWN as int, team);
    lemma_squares_ascend(moves);
    lemma_squares_ascend(first_moves);
    lemma_squares_ascend(left);
    lemma_squares_ascend(right);
    lemma_squares_sound(moves.0, 0);
    lemma_squares_sound(first_moves.0, 0);
    lemma_squares_sound(left.0, 0);
    lemma_squares_sound(right.0, 0);
    assert forall|t: int| #![trigger left.has(t)] left.has(t) implies 0 <= pawn_origin(
        team,
        t,
        backs.0,
    ) < 64 by {
        lemma_pawn_reach(position, edges, team, t);
    }
    assert forall|t: int| #![trigger right.has(t)] right.has(t) implies 0 <= pawn_origin(
        team,
        t,
        backs.1,
    ) < 64 by {
        lemma_pawn_reach(position, edges, team, t);
    }
    assert forall|i: int| 0 <= i < moves.squares().len() implies moves.squares()[i] < 64 && 0
        <= pawn_origin(team, #[trigger] moves.squares()[i] as int, 8) < 64 by {
        assert(moves.has(moves.squares()[i] as int));
    }
    assert forall|i: int| 0 <= i < first_moves.squares().len() implies first_moves.squares()[i]
        < 64 && 0 <= pawn_origin(team, #[trigger] first_moves.squares()[i] as int, 16) < 64 by {
        assert(first_moves.has(first_moves.squares()[i] as int));
    }
    assert forall|i: int| 0 <= i < left.squares().len() implies left.squares()[i] < 64 && 0
        <= pawn_origin(team, #[trigger] left.squares()[i] as int, backs.0) < 64 by {
        assert(left.has(left.squares()[i] as int));
    }
    assert forall|i: int| 0 <= i < right.squares().len() implies right.squares()[i] < 64 && 0
        <= pawn_origin(team, #[trigger] right.squares()[i] as int, backs.1) < 64 by {
        assert(right.has(right.squares()[i] as int));
    }
    lemma_pawn_moves_distinct(moves.squares(), team, 8, PAWN as u8, bounds);
    lemma_pawn_moves_distinct(first_moves.squares(), team, 16, PAWN as u8, bounds);
    lemma_pawn_moves_distinct(left.squares(), team, backs.0, PAWN as u8, bounds);
    lemma_pawn_moves_distinct(right.squares(), team, backs.1, PAWN as u8, bounds);
    lemma_passing_distinct(position, last, edges, team);
    // The lists share no move: a step, a double step and a capture differ
    // in how far they go, and an en passant capture ends on a free square.
    assert forall|a: Action| pushes.contains(a) implies !doubles.contains(a) by {
        lemma_pawn_pushes(position, team, a);
        lemma_pawn_doubles(position, team, a);
    }
    lemma_concat_distinct(pushes, doubles);
    assert forall|a: Action| (pushes + doubles).contains(a) implies !lefts.contains(a) by {
        lemma_concat_contains(pushes, doubles, a);
        lemma_pawn_pushes(position, team, a);
        lemma_pawn_doubles(position, team, a);
        lemma_pawn_takes(position, edges, team, a);
        assert(position.square_ok(a.to as int));
    }
    lemma_concat_distinct(pushes + doubles, lefts);
    assert forall|a: Action| (pushes + doubles + lefts).contains(a) implies !rights.contains(a) by {
        lemma_concat_contains(pushes + doubles, lefts, a);
        lemma_concat_contains(pushes, doubles, a);
        lemma_pawn_pushes(position, team, a);
        lemma_pawn_doubles(position, team, a);
        lemma_pawn_takes(position, edges, team, a);
        assert(position.square_ok(a.to as int));
        if lefts.contains(a) && rights.contains(a) {
            crate::chess::moves::lemma_pawn_moves(left, team, backs.0, PAWN as u8, bounds, a);
            crate::chess::moves::lemma_pawn_moves(right, team, backs.1, PAWN as u8, bounds, a);
        }
    }
    lemma_concat_distinct(pushes + doubles + lefts, rights);
    assert forall|a: Action| (pushes + doubles + lefts + rights).contains(a) implies !passing.contains(
        a,
    ) by {
        lemma_concat_contains(pushes + doubles + lefts, rights, a);
        lemma_concat_contains(pushes + doubles, lefts, a);
        lemma_concat_contains(pushes, doubles, a);
        lemma_pawn_pushes(position, team, a);
        lemma_pawn_doubles(position, team, a);
        lemma_pawn_takes(position, edges, team, a);
        lemma_pawn_passing(position, last, edges, team, a);
        lemma_coords(a.to as int);
        lemma_coords(a.from as int);
        assert(position.square_ok(a.to as int));
    }
    lemma_concat_distinct(pushes + doubles + lefts + rights, passing);
}

/// No en passant capture is listed twice.
pub proof fn lemma_passing_distinct(
    position: BoardView,
    last: Option<ActionRecord>,
    edges: Edges,
    team: Team,
)
    requires
        edges.wf(chess_bounds(), 1),
    ensures
        en_passant_actions(
            position,
            last,
            edges,
            chess_bounds(),
            PAWN as int,
            team,
        ).no_duplicates(),
{
    let bounds = chess_bounds();
    let backs = capture_backs(team);
    match en_passant_target(position, last, PAWN as int, team) {
        Some(square) => {
            let from_left = Action {
                from: pawn_origin(team, square as int, backs.0) as u16,
                to: square,
                piece: PAWN as u8,
                info: 1,
            };
            let from_right = Action {
                from: pawn_origin(team, square as int, backs.1) as u16,
                to: square,
                piece: PAWN as u8,
                info: 1,
            };
            let by_left = if pawn_left_reach(position, edges, PAWN as int, team).has(
                square as int,
            ) {
                expand(from_left, team, bounds)
            } else {
                Seq::empty()
            };
            let by_right = if pawn_right_reach(position, edges, PAWN as int, team).has(
                square as int,
            ) {
                expand(from_right, team, bounds)
            } else {
                Seq::empty()
            };
            lemma_expand_distinct(from_left, team, bounds);
            lemma_expand_distinct(from_right, team, bounds);
            lemma_pawn_reach(position, edges, team, square as int);
            assert forall|a: Action| by_left.contains(a) implies !by_right.contains(a) by {
                lemma_expand(from_left, team, bounds, a);
                lemma_expand(from_right, team, bounds, a);
                if by_left.contains(a) && by_right.contains(a) {
                    assert(from_left.from == from_right.from);
                }
            }
            lemma_concat_distinct(by_left, by_right);
        },
        None => {},
    }
}

impl Game {
    /// No move is listed twice: the list of the moves of the team to move
    /// holds each of its moves once.
    pub proof fn lemma_chess_actions_distinct(
        &self,
        position: BoardView,
        last: Option<ActionRecord>,
    )
        requires
            self.chess_ok(),
            position.wf(),
        ensures
            chess_actions(self, position, last).no_duplicates(),
    {
        let team = position.team_to_move();
        let all = position.occupied();
        let knight_table = self.lookup[KNIGHT as int][0]@;
        let king_table = self.lookup[KING as int][0]@;
        let queen_lists = self.lookup[QUEEN as int]@;
        let pawns = pawn_actions(
            position,
            last,
            self.edges[0],
            self.bounds,
            PAWN as int,
            position.moving_team,
        );
        let knights = leaper_actions(knight_table, position, KNIGHT as int);
        let bishops = magic_actions(self, position, BISHOP as int);
        let rooks = magic_actions(self, position, ROOK as int);
        let queens = slider_actions(queen_lists, position, QUEEN as int);
        let kings = leaper_actions(king_table, position, KING as int);
        let castles = king_castles(self, position, KING as int);
        assert(self.bounds == chess_bounds());
        lemma_pawn_actions_distinct(position, last, self.edges[0], position.moving_team);
        lemma_squares_ascend(position.pieces[KNIGHT as int].and(team));
        lemma_squares_ascend(position.pieces[BISHOP as int].and(team));
        lemma_squares_ascend(position.pieces[ROOK as int].and(team));
        lemma_squares_ascend(position.pieces[QUEEN as int].and(team));
        lemma_squares_ascend(position.pieces[KING as int].and(team));
        lemma_moves_of_distinct(
            position.pieces[KNIGHT as int].and(team).squares(),
            |sq: u32| knight_table[sq as int].and_not(team),
            KNIGHT as u8,
        );
        lemma_moves_of_distinct(
            position.pieces[BISHOP as int].and(team).squares(),
            |sq: u32| self.magic_reach(BISHOP as int, sq as usize, all).and_not(team),
            BISHOP as u8,
        );
        lemma_moves_of_distinct(
            position.pieces[ROOK as int].and(team).squares(),
            |sq: u32| self.magic_reach(ROOK as int, sq as usize, all).and_not(team),
            ROOK as u8,
        );
        lemma_moves_of_distinct(
            position.pieces[QUEEN as int].and(team).squares(),
            |sq: u32| spec_list_moves(queen_lists, sq as usize, all).and_not(team),
            QUEEN as u8,
        );
        lemma_moves_of_distinct(
            position.pieces[KING as int].and(team).squares(),
            |sq: u32| king_table[sq as int].and_not(team),
            KING as u8,
        );
        let unmoved_kings = position.pieces[KING as int].and(team).and(position.first_move);
        let unmoved_rooks = position.pieces[ROOK as int].and(team).and(position.first_move);
        lemma_squares_ascend(unmoved_kings);
        lemma_squares_ascend(unmoved_rooks);
        lemma_castles_of_distinct(
            self,
            position,
            unmoved_kings.squares(),
            unmoved_rooks.squares(),
            KING as u8,
        );
        // The lists of the kinds share no move: a move names its kind, and
        // castling carries a tag that a king's step does not.
        assert forall|a: Action| pawns.contains(a) implies !knights.contains(a) by {
            crate::chess::moves::lemma_pawn_actions(
                position,
                last,
                self.edges[0],
                position.moving_team,
                a,
            );
            self.lemma_piece_actions(position, a);
        }
        lemma_concat_distinct(pawns, knights);
        let upto_knights = pawns + knights;
        assert forall|a: Action| upto_knights.contains(a) implies !bishops.contains(a) by {
            lemma_concat_contains(pawns, knights, a);
            crate::chess::moves::lemma_pawn_actions(
                position,
                last,
                self.edges[0],
                position.moving_team,
                a,
            );
            self.lemma_piece_actions(position, a);
        }
        lemma_concat_distinct(upto_knights, bishops);
        let upto_bishops = upto_knights + bishops;
        assert forall|a: Action| upto_bishops.contains(a) implies !rooks.contains(a) by {
            lemma_concat_contains(upto_knights, bishops, a);
            lemma_concat_contains(pawns, knights, a);
            crate::chess::moves::lemma_pawn_actions(
                position,
                last,
                self.edges[0],
                position.moving_team,
                a,
            );
            self.lemma_piece_actions(position, a);
        }
        lemma_concat_distinct(upto_bishops, rooks);
        let upto_rooks = upto_bishops + rooks;
        assert forall|a: Action| upto_rooks.contains(a) implies !queens.contains(a) by {
            lemma_concat_contains(upto_bishops, rooks, a);
            lemma_concat_contains(upto_knights, bishops, a);
            lemma_concat_contains(pawns, knights, a);
            crate::chess::moves::lemma_pawn_actions(
                position,
                last,
                self.edges[0],
                position.moving_team,
                a,
            );
            self.lemma_piece_actions(position, a);
        }
        lemma_concat_distinct(upto_rooks, queens);
        let upto_queens = upto_rooks + queens;
        assert forall|a: Action| upto_queens.contains(a) implies !kings.contains(a) by {
            lemma_concat_contains(upto_rooks, queens, a);
            lemma_concat_contains(upto_bishops, rooks, a);
            lemma_concat_contains(upto_knights, bishops, a);
            lemma_concat_contains(pawns, knights, a);
            crate::chess::moves::lemma_pawn_actions(
                position,
                last,
                self.edges[0],
                position.moving_team,
                a,
            );
            self.lemma_piece_actions(position, a);
        }
        lemma_concat_distinct(upto_queens, kings);
        let upto_kings = upto_queens + kings;
        assert forall|a: Action| upto_kings.contains(a) implies !castles.contains(a) by {
            lemma_concat_contains(upto_queens, kings, a);
            lemma_concat_contains(upto_rooks, queens, a);
            lemma_concat_contains(upto_bishops, rooks, a);
            lemma_concat_contains(upto_knights, bishops, a);
            lemma_concat_contains(pawns, knights, a);
            crate::chess::moves::lemma_pawn_actions(
                position,
                last,
                self.edges[0],
                position.moving_team,
                a,
            );
            self.lemma_piece_actions(position, a);
            self.lemma_king_castles(position, a);
        }
        lemma_concat_distinct(upto_kings, castles);
    }

    /// No legal move is listed twice.
    pub proof fn lemma_legal_actions_distinct(
        &self,
        position: BoardView,
        last: Option<ActionRecord>,
    )
        requires
            self.chess_ok(),
            position.wf(),
        ensures
            legal_actions(self, position, last).no_duplicates(),
    {
        self.lemma_chess_actions_distinct(position, last);
        lemma_legal_among_distinct(self, position, chess_actions(self, position, last));
    }
}

/// The legal moves of a list without a move that comes twice come once
/// each.
pub proof fn lemma_legal_among_distinct(game: &Game, position: BoardView, actions: Seq<Action>)
    requires
        actions.no_duplicates(),
    ensures
        legal_among(game, position, actions).no_duplicates(),
    decreases actions.len(),
{
    if actions.len() > 0 {
        let before = legal_among(game, position, actions.drop_last());
        let last = if legal_after(game, position, actions.last()) {
            seq![actions.last()]
        } else {
            Seq::empty()
        };
        lemma_legal_among_distinct(game, position, actions.drop_last());
        assert forall|a: Action| before.contains(a) implies !last.contains(a) by {
            lemma_legal_among(game, position, actions.drop_last(), a);
            let j = choose|j: int| 0 <= j < actions.drop_last().len() && actions.drop_last()[j] == a;
            assert(actions[j] == a);
            if last.contains(a) {
                let k = choose|k: int| 0 <= k < last.len() && last[k] == a;
                assert(actions[actions.len() - 1] == a);
            }
        }
        lemma_concat_distinct(before, last);
    }
}

} // verus!
