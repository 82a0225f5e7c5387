//! What it means that a square is attacked, in terms of the pieces and
//! their steps, and that the attack masks of the rules say just that.
use vstd::prelude::*;
use crate::bitboard::{BitBoard, Edges};
use crate::bitboard::{lemma_and_has, lemma_and_not_has, lemma_empty_has, lemma_empty_iff,
    lemma_or_has};
use crate::chess::geometry::{chess_bounds, clear, col, king_step, knight_step, lemma_coords,
    lemma_edges, lemma_ray_attacks, on_board, on_ray, ray_table, row, slider_reaches};
use crate::chess::pieces::leapers::leaper::leaper_hits;
use crate::chess::pieces::pawn::{pawn_captures, pawn_left_reach, pawn_right_reach};
use crate::chess::pieces::sliders::bishop::BishopMoves;
use crate::chess::pieces::sliders::magics::magic_hits;
use crate::chess::pieces::sliders::queen::QueenMoves;
use crate::chess::pieces::sliders::rook::RookMoves;
use crate::chess::pieces::sliders::slider::{SliderMoves, attacks_along, slider_hits,
    spec_can_attack, union_of};
use crate::chess::pieces::sliders::spec_ray_attacks;
use crate::chess::{BISHOP, KING, KNIGHT, PAWN, QUEEN, ROOK, in_check, king_of, spec_attacks};
use crate::game::{AttackDirections, BoardView, Game, Team};

verus! {

/// Whether a pawn of `team` on `from` attacks `to`: `to` lies one row ahead
/// of it, as its team sees it, and one column to either side.
pub open spec fn pawn_attacks(team: Team, from: int, to: int) -> bool {
    &&& on_board(from)
    &&& on_board(to)
    &&& row(to) == row(from) + match team {
        Team::White => 1int,
        Team::Black => -1int,
    }
    &&& (col(to) == col(from) + 1 || col(to) == col(from) - 1)
}

/// Whether the piece of the team to move on `from` attacks `to`: a pawn
/// one row ahead and one column aside, a knight or a king by its step, a
/// bishop, a rook or a queen along one of its rays with nothing in the
/// way; bishops and rooks are not counted as attacking their own team's
/// squares.
pub open spec fn piece_attacks(position: BoardView, from: int, to: int) -> bool {
    let team = position.team_to_move();
    let all = position.occupied();
    team.has(from) && {
        ||| (position.pieces[PAWN as int].has(from) && pawn_attacks(position.moving_team, from, to))
        ||| (position.pieces[KNIGHT as int].has(from) && knight_step(from, to))
        ||| (position.pieces[BISHOP as int].has(from) && !team.has(to) && slider_reaches(
            BishopMoves.directions(),
            from,
            to,
            all,
            4,
        ))
        ||| (position.pieces[ROOK as int].has(from) && !team.has(to) && slider_reaches(
            RookMoves.directions(),
            from,
            to,
            all,
            4,
        ))
        ||| (position.pieces[QUEEN as int].has(from) && slider_reaches(
            QueenMoves.directions(),
            from,
            to,
            all,
            8,
        ))
        ||| (position.pieces[KING as int].has(from) && king_step(from, to))
    }
}

/// Whether a piece of the team to move attacks a square of `mask`.
pub open spec fn attacks_some(position: BoardView, mask: BitBoard) -> bool {
    exists|from: int, to: int|
        #![trigger piece_attacks(position, from, to)]
        mask.has(to) && piece_attacks(position, from, to)
}

/// Whether `team` stands in check: a piece of the other team attacks a
/// square on which one of its kings stands.
pub open spec fn checked(position: BoardView, team: Team) -> bool {
    attacks_some(BoardView { moving_team: team.next(), ..position }, king_of(position, team))
}

/// The squares that the pawns of a team attack are those one row ahead of
/// a pawn and one column aside.
pub proof fn lemma_pawn_captures(position: BoardView, edges: Edges, team: Team, to: int)
    requires
        edges.wf(chess_bounds(), 1),
    ensures
        pawn_captures(position, edges, PAWN as int, team).has(to) == (exists|from: int|
            #![trigger pawn_attacks(team, from, to)]
            position.pieces[PAWN as int].has(from) && position.team(team).has(from)
                && pawn_attacks(team, from, to)),
{
    broadcast use crate::bitboard::group_bitboard_has;

    let pawns = position.pieces[PAWN as int].and(position.team(team));
    let ahead = match team {
        Team::White => 8int,
        Team::Black => -8int,
    };
    let left_from = to + 1 - ahead;
    let right_from = to - 1 - ahead;
    lemma_edges(edges, to + 1);
    lemma_edges(edges, to - 1);
    lemma_coords(to);
    lemma_coords(to + 1);
    lemma_coords(to - 1);
    lemma_coords(left_from);
    lemma_coords(right_from);
    assert(pawn_left_reach(position, edges, PAWN as int, team).has(to) == (on_board(to)
        && pawns.has(left_from) && col(to) != 7));
    assert(pawn_right_reach(position, edges, PAWN as int, team).has(to) == (on_board(to)
        && pawns.has(right_from) && col(to) != 0));
    if pawn_captures(position, edges, PAWN as int, team).has(to) {
        if pawn_left_reach(position, edges, PAWN as int, team).has(to) {
            assert(pawn_attacks(team, left_from, to));
        } else {
            assert(pawn_attacks(team, right_from, to));
        }
    }
    if exists|from: int|
        #![trigger pawn_attacks(team, from, to)]
        position.pieces[PAWN as int].has(from) && position.team(team).has(from) && pawn_attacks(
            team,
            from,
            to,
        ) {
        let from = choose|from: int|
            #![trigger pawn_attacks(team, from, to)]
            position.pieces[PAWN as int].has(from) && position.team(team).has(from)
                && pawn_attacks(team, from, to);
        lemma_coords(from);
        assert(from == left_from || from == right_from);
    }
}

/// A leaper of a set reaches a square of the mask exactly if the table of
/// one of its squares holds a square of the mask.
pub proof fn lemma_leaper_hits(table: Seq<BitBoard>, leapers: BitBoard, mask: BitBoard)
    ensures
        leaper_hits(table, leapers, mask) == (exists|from: int, to: int|
            #![trigger table[from].has(to)]
            leapers.has(from) && mask.has(to) && table[from].has(to)),
{
    if leaper_hits(table, leapers, mask) {
        let from = choose|sq: int|
            #![trigger leapers.has(sq)]
            leapers.has(sq) && table[sq].and(mask).is_set();
        lemma_empty_iff(table[from].and(mask));
        let to = choose|to: int| table[from].and(mask).has(to);
        lemma_and_has(table[from], mask, to);
        assert(table[from].has(to));
    }
    if exists|from: int, to: int|
        #![trigger table[from].has(to)]
        leapers.has(from) && mask.has(to) && table[from].has(to) {
        let (from, to) = choose|from: int, to: int|
            #![trigger table[from].has(to)]
            leapers.has(from) && mask.has(to) && table[from].has(to);
        lemma_and_has(table[from], mask, to);
        lemma_empty_iff(table[from].and(mask));
        assert(leapers.has(from) && table[from].and(mask).is_set());
    }
}

/// The rays of a square together hold what one of them holds.
pub proof fn lemma_union_of(lists: Seq<AttackDirections>, pos: int, count: nat, to: int)
    requires
        count <= lists.len(),
    ensures
        union_of(lists, pos, count).has(to) == (exists|d: int|
            #![trigger lists[d]]
            0 <= d < count && lists[d][pos].has(to)),
    decreases count,
{
    if count == 0 {
        lemma_empty_has(to);
    } else {
        lemma_union_of(lists, pos, (count - 1) as nat, to);
        lemma_or_has(union_of(lists, pos, (count - 1) as nat), lists[count - 1][pos], to);
        if union_of(lists, pos, (count - 1) as nat).has(to) {
            let d = choose|d: int| #![trigger lists[d]] 0 <= d < count - 1 && lists[d][pos].has(to);
            assert(0 <= d < count && lists[d][pos].has(to));
        }
        if exists|d: int| #![trigger lists[d]] 0 <= d < count && lists[d][pos].has(to) {
            let d = choose|d: int| #![trigger lists[d]] 0 <= d < count && lists[d][pos].has(to);
            if d < count - 1 {
                assert(0 <= d < count - 1 && lists[d][pos].has(to));
            }
        }
    }
}

impl Game {
    /// A slider whose rays are walked attacks a square of the mask exactly
    /// if it reaches one: the look at all its rays together and at each
    /// ray before it is cut off only saves work.
    pub proof fn lemma_can_attack<S: SliderMoves>(
        &self,
        piece_index: int,
        moves: S,
        from: usize,
        blockers: BitBoard,
        mask: BitBoard,
    )
        requires
            self.board_ok(),
            self.slider_ok(piece_index, moves),
            from < 64,
        ensures
            spec_can_attack(self.lookup[piece_index]@, from, blockers, mask) == (exists|to: int|
                #![trigger mask.has(to)]
                mask.has(to) && slider_reaches(
                    moves.directions(),
                    from as int,
                    to,
                    blockers,
                    moves.directions().len(),
                )),
    {
        let lists = self.lookup[piece_index]@;
        let directions = moves.directions();
        let count = directions.len();
        let all = lists[count as int][from as int];
        assert forall|d: int| 0 <= d < count implies ray_table(
            #[trigger] lists[d]@,
            directions[d],
        ) by {
            self.lemma_slider_rays(piece_index, moves, d);
        }
        if spec_can_attack(lists, from, blockers, mask) {
            let d = choose|dir: int|
                #![trigger lists[dir]]
                0 <= dir < count && lists[dir][from as int].and(mask).is_set() && spec_ray_attacks(
                    lists[dir]@,
                    from,
                    lists[dir][from as int],
                    blockers,
                ).and(mask).is_set();
            let cut = spec_ray_attacks(lists[d]@, from, lists[d][from as int], blockers);
            lemma_empty_iff(cut.and(mask));
            let to = choose|to: int| cut.and(mask).has(to);
            lemma_and_has(cut, mask, to);
            assert(ray_table(lists[d]@, directions[d]));
            lemma_ray_attacks(lists[d]@, directions[d], from, blockers, to);
            assert(mask.has(to) && slider_reaches(directions, from as int, to, blockers, count));
        }
        if exists|to: int|
            #![trigger mask.has(to)]
            mask.has(to) && slider_reaches(directions, from as int, to, blockers, count) {
            let to = choose|to: int|
                #![trigger mask.has(to)]
                mask.has(to) && slider_reaches(directions, from as int, to, blockers, count);
            let d = choose|d: int|
                #![trigger directions[d]]
                0 <= d < count && on_ray(directions[d], from as int, to) && clear(
                    directions[d],
                    from as int,
                    to,
                    blockers,
                );
            let ray = lists[d][from as int];
            let cut = spec_ray_attacks(lists[d]@, from, ray, blockers);
            assert(ray_table(lists[d]@, directions[d]));
            lemma_ray_attacks(lists[d]@, directions[d], from, blockers, to);
            assert(ray.has(to));
            lemma_and_has(ray, mask, to);
            lemma_and_has(cut, mask, to);
            lemma_empty_iff(ray.and(mask));
            lemma_empty_iff(cut.and(mask));
            lemma_union_of(lists, from as int, count, to);
            assert(lists[d][from as int].has(to));
            assert(all == union_of(lists, from as int, count));
            lemma_and_has(all, mask, to);
            lemma_empty_iff(all.and(mask));
            assert(attacks_along(lists, from, blockers, mask, count)) by {
                assert(0 <= d < count && lists[d][from as int].and(mask).is_set()
                    && spec_ray_attacks(lists[d]@, from, lists[d][from as int], blockers).and(
                    mask,
                ).is_set());
            }
        }
    }

    /// The attack mask of the rules meets a mask exactly if a piece of the
    /// team to move attacks a square of the mask.
    pub proof fn lemma_attacks(&self, position: BoardView, mask: BitBoard)
        requires
            self.chess_ok(),
            position.wf(),
        ensures
            spec_attacks(self, position, mask).and(mask).is_set() == attacks_some(position, mask),
    {
        let team = position.team_to_move();
        let all = position.occupied();
        let pawns = pawn_captures(position, self.edges[0], PAWN as int, position.moving_team);
        let knights = position.pieces[KNIGHT as int].and(team);
        let bishops = position.pieces[BISHOP as int].and(team);
        let rooks = position.pieces[ROOK as int].and(team);
        let queens = position.pieces[QUEEN as int].and(team);
        let kings = position.pieces[KING as int].and(team);
        let knight_hit = leaper_hits(self.lookup[KNIGHT as int][0]@, knights, mask);
        let bishop_hit = magic_hits(self, BISHOP as int, bishops, all, team, mask);
        let rook_hit = magic_hits(self, ROOK as int, rooks, all, team, mask);
        let queen_hit = slider_hits(self.lookup[QUEEN as int]@, queens, all, mask);
        let king_hit = leaper_hits(self.lookup[KING as int][0]@, kings, mask);
        let result = spec_attacks(self, position, mask);
        assert(self.bounds == chess_bounds());
        lemma_empty_iff(result.and(mask));
        lemma_empty_iff(mask);
        lemma_empty_iff(pawns.and(mask));
        lemma_leaper_hits(self.lookup[KNIGHT as int][0]@, knights, mask);
        lemma_leaper_hits(self.lookup[KING as int][0]@, kings, mask);
        // What the mask of the rules holds, square by square.
        assert forall|to: int|
            result.and(mask).has(to) == (mask.has(to) && (pawns.has(to) || knight_hit || bishop_hit
                || rook_hit || queen_hit || king_hit)) by {
            broadcast use crate::bitboard::group_bitboard_has;

        }
        let any = knight_hit || bishop_hit || rook_hit || queen_hit || king_hit;
        if result.and(mask).is_set() {
            let to = choose|to: int| result.and(mask).has(to);
            if pawns.has(to) {
                lemma_pawn_captures(position, self.edges[0], position.moving_team, to);
                let from = choose|from: int|
                    #![trigger pawn_attacks(position.moving_team, from, to)]
                    position.pieces[PAWN as int].has(from) && team.has(from) && pawn_attacks(
                        position.moving_team,
                        from,
                        to,
                    );
                assert(piece_attacks(position, from, to));
            } else if knight_hit {
                let table = self.lookup[KNIGHT as int][0]@;
                let (from, at) = choose|from: int, at: int|
                    #![trigger table[from].has(at)]
                    knights.has(from) && mask.has(at) && table[from].has(at);
                lemma_and_has(position.pieces[KNIGHT as int], team, from);
                self.lemma_chess_tables(from as usize, all, at);
                assert(piece_attacks(position, from, at));
            } else if king_hit {
                let table = self.lookup[KING as int][0]@;
                let (from, at) = choose|from: int, at: int|
                    #![trigger table[from].has(at)]
                    kings.has(from) && mask.has(at) && table[from].has(at);
                lemma_and_has(position.pieces[KING as int], team, from);
                self.lemma_chess_tables(from as usize, all, at);
                assert(piece_attacks(position, from, at));
            } else if bishop_hit {
                let from = choose|sq: int|
                    #![trigger bishops.has(sq)]
                    bishops.has(sq) && self.magic_reach(BISHOP as int, sq as usize, all).and_not(
                        team,
                    ).and(mask).is_set();
                let reach = self.magic_reach(BISHOP as int, from as usize, all);
                lemma_empty_iff(reach.and_not(team).and(mask));
                let at = choose|at: int| reach.and_not(team).and(mask).has(at);
                lemma_and_has(reach.and_not(team), mask, at);
                lemma_and_not_has(reach, team, at);
                lemma_and_has(position.pieces[BISHOP as int], team, from);
                self.lemma_chess_tables(from as usize, all, at);
                assert(piece_attacks(position, from, at));
            } else if rook_hit {
                let from = choose|sq: int|
                    #![trigger rooks.has(sq)]
                    rooks.has(sq) && self.magic_reach(ROOK as int, sq as usize, all).and_not(
                        team,
                    ).and(mask).is_set();
                let reach = self.magic_reach(ROOK as int, from as usize, all);
                lemma_empty_iff(reach.and_not(team).and(mask));
                let at = choose|at: int| reach.and_not(team).and(mask).has(at);
                lemma_and_has(reach.and_not(team), mask, at);
                lemma_and_not_has(reach, team, at);
                lemma_and_has(position.pieces[ROOK as int], team, from);
                self.lemma_chess_tables(from as usize, all, at);
                assert(piece_attacks(position, from, at));
            } else {
                assert(queen_hit);
                let from = choose|sq: int|
                    #![trigger queens.has(sq)]
                    queens.has(sq) && spec_can_attack(
                        self.lookup[QUEEN as int]@,
                        sq as usize,
                        all,
                        mask,
                    );
                self.lemma_can_attack(QUEEN as int, QueenMoves, from as usize, all, mask);
                let at = choose|at: int|
                    #![trigger mask.has(at)]
                    mask.has(at) && slider_reaches(QueenMoves.directions(), from, at, all, 8);
                lemma_and_has(position.pieces[QUEEN as int], team, from);
                assert(piece_attacks(position, from, at));
            }
        }
        if attacks_some(position, mask) {
            let (from, to) = choose|from: int, to: int|
                #![trigger piece_attacks(position, from, to)]
                mask.has(to) && piece_attacks(position, from, to);
            assert(position.square_ok(from));
            self.lemma_chess_tables(from as usize, all, to);
            if position.pieces[PAWN as int].has(from) {
                lemma_pawn_captures(position, self.edges[0], position.moving_team, to);
                assert(pawns.has(to));
                assert(result.and(mask).has(to));
            } else if position.pieces[KNIGHT as int].has(from) {
                lemma_and_has(position.pieces[KNIGHT as int], team, from);
                assert(self.lookup[KNIGHT as int][0]@[from].has(to));
                assert(knight_hit);
                assert(result.and(mask).has(to));
            } else if position.pieces[KING as int].has(from) {
                lemma_and_has(position.pieces[KING as int], team, from);
                assert(self.lookup[KING as int][0]@[from].has(to));
                assert(king_hit);
                assert(result.and(mask).has(to));
            } else if position.pieces[BISHOP as int].has(from) {
                let reach = self.magic_reach(BISHOP as int, from as usize, all);
                lemma_and_has(position.pieces[BISHOP as int], team, from);
                lemma_and_not_has(reach, team, to);
                lemma_and_has(reach.and_not(team), mask, to);
                lemma_empty_iff(reach.and_not(team).and(mask));
                assert(bishops.has(from) && reach.and_not(team).and(mask).is_set());
                assert(bishop_hit);
                assert(result.and(mask).has(to));
            } else if position.pieces[ROOK as int].has(from) {
                let reach = self.magic_reach(ROOK as int, from as usize, all);
                lemma_and_has(position.pieces[ROOK as int], team, from);
                lemma_and_not_has(reach, team, to);
                lemma_and_has(reach.and_not(team), mask, to);
                lemma_empty_iff(reach.and_not(team).and(mask));
                assert(rooks.has(from) && reach.and_not(team).and(mask).is_set());
                assert(rook_hit);
                assert(result.and(mask).has(to));
            } else {
                assert(position.pieces[QUEEN as int].has(from));
                lemma_and_has(position.pieces[QUEEN as int], team, from);
                self.lemma_can_attack(QUEEN as int, QueenMoves, from as usize, all, mask);
                assert(queens.has(from) && spec_can_attack(
                    self.lookup[QUEEN as int]@,
                    from as usize,
                    all,
                    mask,
                ));
                assert(queen_hit);
                assert(result.and(mask).has(to));
            }
        }
    }

    /// A team stands in check exactly if a piece of the other team attacks
    /// a square on which one of its kings stands.
    pub proof fn lemma_in_check(&self, position: BoardView, team: Team)
        requires
            self.chess_ok(),
            position.wf(),
        ensures
            in_check(self, position, team) == checked(position, team),
    {
        let turned = BoardView { moving_team: team.next(), ..position };
        assert forall|sq: int| 0 <= sq < 64 implies #[trigger] turned.square_ok(sq) by {
            assert(position.square_ok(sq));
        }
        self.lemma_attacks(turned, king_of(position, team));
    }
}

} // verus!
