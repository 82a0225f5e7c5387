//! Pawns: their moves, their captures, en passant and promotion.
use vstd::prelude::*;
use crate::bitboard::{BitBoard, Bounds, Edges};
use crate::bitboard::group_bitboard_has;
use crate::bitboard::{lemma_meets_index, lemma_squares_sound};
use crate::game::action::{Action, ActionRecord, make_chess_move};
use crate::game::notation::{letter_of, name_move, pawn_name, texts_view};
use crate::game::text::{chars_of, text_of};
use crate::chess::PAWN;
use crate::game::{Board, BoardState, BoardView, Team, NO_PIECE, PIECE_KINDS};

verus! {

broadcast use group_bitboard_has;

impl BoardView {
    /// The square of the pawn that an en passant capture to `to` takes: one
    /// row behind `to`, as the moving team sees it.
    pub open spec fn en_passant_victim(self, to: u16) -> int {
        match self.moving_team {
            Team::White => to - 8,
            Team::Black => to + 8,
        }
    }

    /// What an en passant capture needs: a piece of the moving team and of
    /// the kind named on the square left, nothing on the square reached,
    /// and one row behind it a piece of the other team and of the same kind.
    pub open spec fn can_en_passant(self, action: Action) -> bool {
        let taken = self.en_passant_victim(action.to);
        &&& action.from < 64
        &&& action.to < 64
        &&& action.piece < PIECE_KINDS
        &&& self.mailbox[action.from as int] == action.piece
        &&& self.team_to_move().has(action.from as int)
        &&& !self.occupied().has(action.to as int)
        &&& 0 <= taken < 64
        &&& self.opposite_team().has(taken)
        &&& self.mailbox[taken] == action.piece
    }

    /// The position after an en passant capture, the side to move left as
    /// it is.
    pub open spec fn after_en_passant(self, action: Action) -> BoardView {
        let from = BitBoard::index(action.from);
        let to = BitBoard::index(action.to);
        let taken_pos = self.en_passant_victim(action.to);
        let taken = BitBoard::index(taken_pos as u16);
        let kind = action.piece as int;
        let mover = self.team_to_move().xor(from).or(to);
        let other = self.opposite_team().xor(taken);
        BoardView {
            moving_team: self.moving_team,
            first_move: self.first_move.and_not(from.or(taken).or(to)),
            white: if self.moving_team == Team::White {
                mover
            } else {
                other
            },
            black: if self.moving_team == Team::White {
                other
            } else {
                mover
            },
            pieces: self.pieces.update(kind, self.pieces[kind].xor(from).xor(taken).or(to)),
            mailbox: self.mailbox.update(action.from as int, NO_PIECE).update(
                taken_pos,
                NO_PIECE,
            ).update(action.to as int, action.piece),
        }
    }

    /// An en passant capture leaves a well-formed position well formed.
    pub proof fn lemma_after_en_passant_wf(self, action: Action)
        requires
            self.wf(),
            self.can_en_passant(action),
        ensures
            self.after_en_passant(action).wf(),
    {
        let next = self.after_en_passant(action);
        let taken = self.en_passant_victim(action.to);
        assert forall|sq: int| 0 <= sq < 64 implies #[trigger] next.square_ok(sq) by {
            assert(self.square_ok(sq));
            assert(self.square_ok(action.to as int));
            assert(self.square_ok(action.from as int));
            assert(self.square_ok(taken));
            assert forall|k: int| 0 <= k < PIECE_KINDS implies #[trigger] next.pieces[k].has(sq)
                == (next.mailbox[sq] == k) by {
                assert(self.pieces[k].has(sq) == (self.mailbox[sq] == k));
                assert(self.pieces[k].has(action.to as int) == (self.mailbox[action.to as int]
                    == k));
            }
        }
    }

    /// The kind that a pawn turns into by a move with the tag `info`.
    pub open spec fn promoted_kind(info: u8) -> int {
        info - 2
    }

    /// What a promotion needs: what an ordinary move needs, and a tag that
    /// names a kind.
    pub open spec fn can_promote(self, action: Action) -> bool {
        &&& self.can_move(action)
        &&& 0 <= Self::promoted_kind(action.info) < PIECE_KINDS
    }

    /// The position after a promotion, the side to move left as it is: what
    /// stood on the square reached is gone, the pawn is gone, and a piece
    /// of the new kind stands on the square reached.
    pub open spec fn after_promotion(self, action: Action) -> BoardView {
        let from = BitBoard::index(action.from);
        let to = BitBoard::index(action.to);
        let kind = action.piece as int;
        let promoted = Self::promoted_kind(action.info);
        let rest = self.pieces_without(action.to);
        let gone = rest.update(kind, rest[kind].xor(from));
        BoardView {
            moving_team: self.moving_team,
            first_move: self.first_move.and_not(from.or(to)),
            white: self.team_after(Team::White, action.from, action.to),
            black: self.team_after(Team::Black, action.from, action.to),
            pieces: gone.update(promoted, gone[promoted].or(to)),
            mailbox: self.mailbox.update(action.from as int, NO_PIECE).update(
                action.to as int,
                promoted as u8,
            ),
        }
    }

    /// A promotion leaves a well-formed position well formed.
    pub proof fn lemma_after_promotion_wf(self, action: Action)
        requires
            self.wf(),
            self.can_promote(action),
        ensures
            self.after_promotion(action).wf(),
    {
        let next = self.after_promotion(action);
        assert forall|sq: int| 0 <= sq < 64 implies #[trigger] next.square_ok(sq) by {
            assert(self.square_ok(sq));
            assert(self.square_ok(action.to as int));
            assert(self.square_ok(action.from as int));
            assert forall|k: int| 0 <= k < PIECE_KINDS implies #[trigger] next.pieces[k].has(sq)
                == (next.mailbox[sq] == k) by {
                assert(self.pieces[k].has(sq) == (self.mailbox[sq] == k));
                assert(self.pieces[k].has(action.to as int) == (self.mailbox[action.to as int]
                    == k));
            }
        }
    }
}

/// Applies an en passant capture to the position; the side to move stays.
pub fn make_en_passant_move(state: &mut BoardState, action: Action)
    requires
        old(state)@.wf(),
        old(state)@.can_en_passant(action),
    ensures
        final(state)@ == old(state)@.after_en_passant(action),
        final(state)@.wf(),
{
    let team = state.moving_team;
    let from = BitBoard::index(action.from);
    let to = BitBoard::index(action.to);

    let taken_pos: u16 = match team {
        Team::White => action.to - 8,
        Team::Black => action.to + 8,
    };
    let taken = BitBoard::index(taken_pos);

    let piece_index = action.piece as usize;

    match team {
        Team::White => {
            state.white = state.white.xor(from).or(to);
            state.black = state.black.xor(taken);
        },
        Team::Black => {
            state.black = state.black.xor(from).or(to);
            state.white = state.white.xor(taken);
        },
    }

    state.pieces[piece_index] = state.pieces[piece_index].xor(from).xor(taken).or(to);
    state.first_move = state.first_move.and_not(from.or(taken).or(to));
    state.mailbox[action.from as usize] = NO_PIECE;
    state.mailbox[taken_pos as usize] = NO_PIECE;
    state.mailbox[action.to as usize] = action.piece;
    proof {
        assert(state@.pieces =~= old(state)@.after_en_passant(action).pieces);
        assert(state@.mailbox =~= old(state)@.after_en_passant(action).mailbox);
        old(state)@.lemma_after_en_passant_wf(action);
    }
}

/// Applies a promotion to the position; the side to move stays.
pub fn make_promotion_move(state: &mut BoardState, action: Action)
    requires
        old(state)@.wf(),
        old(state)@.can_promote(action),
    ensures
        final(state)@ == old(state)@.after_promotion(action),
        final(state)@.wf(),
{
    let piece_index = action.piece as usize;
    let victim_index = state.piece_at(action.to);
    let promoted_piece_type = action.info - 2;

    let white = state.white;
    let black = state.black;

    let from = BitBoard::index(action.from);
    let to = BitBoard::index(action.to);

    let team = state.moving_team;

    if let Some(piece_type) = victim_index {
        state.pieces[piece_type] = state.pieces[piece_type].and_not(to);
        match team {
            Team::White => {
                state.black = black.xor(to);
            },
            Team::Black => {
                state.white = white.xor(to);
            },
        }
    }
    // Remove the pawn
    state.pieces[piece_index] = state.pieces[piece_index].xor(from);

    // Add the new piece where the pawn went.
    state.pieces[promoted_piece_type as usize] = state.pieces[promoted_piece_type as usize].or(to);

    match team {
        Team::White => {
            state.white = white.xor(from).or(to);
        },
        Team::Black => {
            state.black = black.xor(from).or(to);
        },
    }

    state.first_move = state.first_move.and_not(from.or(to));
    state.mailbox[action.from as usize] = NO_PIECE;
    state.mailbox[action.to as usize] = promoted_piece_type;
    proof {
        assert(state@.pieces =~= old(state)@.after_promotion(action).pieces);
        assert(state@.mailbox =~= old(state)@.after_promotion(action).mailbox);
        old(state)@.lemma_after_promotion_wf(action);
    }
}

/// Whether a pawn of `team` that reaches `to` is promoted: a white one
/// beyond the last row but one, a black one in the lowest row.
pub open spec fn promotes(team: Team, bounds: Bounds, to: u16) -> bool {
    match team {
        Team::White => to > bounds.rows * (bounds.cols - 1) - 1,
        Team::Black => to < bounds.rows,
    }
}

/// A pawn's move as it is listed: once, or where it promotes once for each
/// of the four kinds that a pawn can turn into.
pub open spec fn expand(action: Action, team: Team, bounds: Bounds) -> Seq<Action> {
    if promotes(team, bounds, action.to) {
        seq![
            action.with_info(3),
            action.with_info(4),
            action.with_info(5),
            action.with_info(6),
        ]
    } else {
        seq![action]
    }
}

/// The square from which a pawn of `team` came that reached `to` and is
/// `back` squares from where it started.
pub open spec fn pawn_origin(team: Team, to: int, back: int) -> int {
    match team {
        Team::White => to - back,
        Team::Black => to + back,
    }
}

/// The moves of the pawns of `team` that reach `targets`, target by target,
/// each from the square `back` squares behind it.
pub open spec fn pawn_moves(targets: Seq<u32>, team: Team, back: int, piece: u8, bounds: Bounds)
    -> Seq<Action>
    decreases targets.len(),
{
    if targets.len() == 0 {
        Seq::empty()
    } else {
        pawn_moves(targets.drop_last(), team, back, piece, bounds) + expand(
            Action {
                from: pawn_origin(team, targets.last() as int, back) as u16,
                to: targets.last() as u16,
                piece,
                info: 0,
            },
            team,
            bounds,
        )
    }
}

/// The squares one row ahead of `pawns`, as `team` sees it.
pub open spec fn pawn_advance(pawns: BitBoard, team: Team) -> BitBoard {
    match team {
        Team::White => pawns.up(1, 8),
        Team::Black => pawns.down(1, 8),
    }
}

/// The squares that the pawns of `team` attack to their left.
pub open spec fn pawn_left_reach(position: BoardView, edges: Edges, kind: int, team: Team)
    -> BitBoard {
    pawn_advance(position.pieces[kind].and(position.team(team)), team).and_not(edges.left).left(1)
}

/// The squares that the pawns of `team` attack to their right.
pub open spec fn pawn_right_reach(position: BoardView, edges: Edges, kind: int, team: Team)
    -> BitBoard {
    pawn_advance(position.pieces[kind].and(position.team(team)), team).and_not(edges.right).right(
        1,
    )
}

/// The squares that the pawns of `team` attack.
pub open spec fn pawn_captures(position: BoardView, edges: Edges, kind: int, team: Team)
    -> BitBoard {
    pawn_left_reach(position, edges, kind, team).or(pawn_right_reach(position, edges, kind, team))
}

/// How far behind its target a pawn of `team` stands that captures to the
/// left, and one that captures to the right.
pub open spec fn capture_backs(team: Team) -> (int, int) {
    match team {
        Team::White => (7, 9),
        Team::Black => (9, 7),
    }
}

/// The square on which a pawn of `team` may capture en passant: the one
/// that a pawn of the other team passed over in the last ply, when it went
/// two rows towards `team` and the square behind it is still free.
pub open spec fn en_passant_target(
    position: BoardView,
    last: Option<ActionRecord>,
    kind: int,
    team: Team,
) -> Option<u16> {
    match last {
        Some(ActionRecord::Action(m)) => {
            let passed = match team {
                Team::White => m.from - 8,
                Team::Black => m.from + 8,
            };
            if m.from < 64 && m.to < 64 && position.piece_at(m.to) == Some(kind as usize)
                && position.team(team.next()).has(m.to as int) && (match team {
                Team::White => m.from == m.to + 16,
                Team::Black => m.to == m.from + 16,
            }) && !position.occupied().has(passed) {
                Some(passed as u16)
            } else {
                None
            }
        },
        _ => None,
    }
}

/// The en passant captures of `team`: onto the target, if there is one,
/// from the left and from the right, where a pawn stands to do so.
pub open spec fn en_passant_actions(
    position: BoardView,
    last: Option<ActionRecord>,
    edges: Edges,
    bounds: Bounds,
    kind: int,
    team: Team,
) -> Seq<Action> {
    let backs = capture_backs(team);
    match en_passant_target(position, last, kind, team) {
        Some(target) => {
            let left = if pawn_left_reach(position, edges, kind, team).has(target as int) {
                expand(
                    Action {
                        from: pawn_origin(team, target as int, backs.0) as u16,
                        to: target,
                        piece: kind as u8,
                        info: 1,
                    },
                    team,
                    bounds,
                )
            } else {
                Seq::empty()
            };
            let right = if pawn_right_reach(position, edges, kind, team).has(target as int) {
                expand(
                    Action {
                        from: pawn_origin(team, target as int, backs.1) as u16,
                        to: target,
                        piece: kind as u8,
                        info: 1,
                    },
                    team,
                    bounds,
                )
            } else {
                Seq::empty()
            };
            left + right
        },
        None => Seq::empty(),
    }
}

/// The moves of the pawns of `team`: steps of one row onto free squares,
/// steps of two rows of pawns that have not moved, over a free square onto
/// a free square, captures to the left and to the right, and en passant
/// captures, in this order and within each by target square.
pub open spec fn pawn_actions(
    position: BoardView,
    last: Option<ActionRecord>,
    edges: Edges,
    bounds: Bounds,
    kind: int,
    team: Team,
) -> Seq<Action> {
    let all = position.occupied();
    let pawns = position.pieces[kind].and(position.team(team));
    let enemy = position.team(team.next());
    let piece = kind as u8;
    let backs = capture_backs(team);
    let moves = pawn_advance(pawns, team).and_not(all);
    let first_moves = pawn_advance(
        pawn_advance(pawns.and(position.first_move), team).and_not(all),
        team,
    ).and_not(all);
    let left = pawn_left_reach(position, edges, kind, team).and(enemy);
    let right = pawn_right_reach(position, edges, kind, team).and(enemy);
    pawn_moves(moves.squares(), team, 8, piece, bounds) + pawn_moves(
        first_moves.squares(),
        team,
        16,
        piece,
        bounds,
    ) + pawn_moves(left.squares(), team, backs.0, piece, bounds) + pawn_moves(
        right.squares(),
        team,
        backs.1,
        piece,
        bounds,
    ) + en_passant_actions(position, last, edges, bounds, kind, team)
}

/// The squares that the white pawns attack.
pub fn list_white_pawn_captures(board: &Board, piece_index: usize) -> (r: BitBoard)
    requires
        piece_index < PIECE_KINDS,
        board.game.edges@.len() >= 1,
    ensures
        r == pawn_captures(board.state@, board.game.edges[0], piece_index as int, Team::White),
{
    let pawns = board.state.pieces[piece_index];
    let edges = board.game.edges[0];

    let up_once = pawns.and(board.state.white).up(1, 8);
    let left_captures = up_once.and_not(edges.left).left(1);
    let right_captures = up_once.and_not(edges.right).right(1);

    left_captures.or(right_captures)
}

/// The squares that the black pawns attack.
pub fn list_black_pawn_captures(board: &Board, piece_index: usize) -> (r: BitBoard)
    requires
        piece_index < PIECE_KINDS,
        board.game.edges@.len() >= 1,
    ensures
        r == pawn_captures(board.state@, board.game.edges[0], piece_index as int, Team::Black),
{
    let pawns = board.state.pieces[piece_index];
    let edges = board.game.edges[0];

    let down_once = pawns.and(board.state.black).down(1, 8);
    let left_captures = down_once.and_not(edges.left).left(1);
    let right_captures = down_once.and_not(edges.right).right(1);

    left_captures.or(right_captures)
}

/// Lists a white pawn's move: once, or once for each kind that it can turn
/// into.
pub fn add_white_action(board: &Board, actions: &mut Vec<Action>, action: Action)
    requires
        board.game.board_ok(),
    ensures
        final(actions)@ == old(actions)@ + expand(action, Team::White, board.game.bounds),
{
    if action.to <= (board.game.bounds.rows * (board.game.bounds.cols - 1)) - 1 {
        actions.push(action);
    } else {
        actions.push(action.with_info(3));
        actions.push(action.with_info(4));
        actions.push(action.with_info(5));
        actions.push(action.with_info(6));
    }
    proof {
        assert(actions@ =~= old(actions)@ + expand(action, Team::White, board.game.bounds));
    }
}

/// Lists a black pawn's move: once, or once for each kind that it can turn
/// into.
pub fn add_black_action(board: &Board, actions: &mut Vec<Action>, action: Action)
    requires
        board.game.board_ok(),
    ensures
        final(actions)@ == old(actions)@ + expand(action, Team::Black, board.game.bounds),
{
    if action.to >= board.game.bounds.rows {
        actions.push(action);
    } else {
        actions.push(action.with_info(3));
        actions.push(action.with_info(4));
        actions.push(action.with_info(5));
        actions.push(action.with_info(6));
    }
    proof {
        assert(actions@ =~= old(actions)@ + expand(action, Team::Black, board.game.bounds));
    }
}

/// What holds of a pawn's move as it is listed: it reaches one of
/// `targets` from `back` squares behind, and carries the tag `info` or, where
/// it promotes, the tag of one of the four kinds.
pub open spec fn pawn_listed(
    a: Action,
    targets: BitBoard,
    team: Team,
    back: int,
    piece: u8,
    info: u8,
    bounds: Bounds,
) -> bool {
    &&& a.piece == piece
    &&& a.to < 64
    &&& targets.has(a.to as int)
    &&& a.from == pawn_origin(team, a.to as int, back)
    &&& if promotes(team, bounds, a.to) {
        3 <= a.info <= 6
    } else {
        a.info == info
    }
}

/// Lists the move of the pawn of `team` that reaches `to` from `back`
/// squares behind.
fn add_pawn_action(
    board: &Board,
    actions: &mut Vec<Action>,
    team: Team,
    to: u16,
    back: u16,
    piece: u8,
    info: u8,
)
    requires
        board.game.board_ok(),
        0 <= pawn_origin(team, to as int, back as int) < 64,
        to < 64,
    ensures
        final(actions)@ == old(actions)@ + expand(
            Action { from: pawn_origin(team, to as int, back as int) as u16, to, piece, info },
            team,
            board.game.bounds,
        ),
        forall|i: int|
            #![trigger final(actions)@[i]]
            old(actions)@.len() <= i < final(actions)@.len() ==> {
                let a = final(actions)@[i];
                &&& a.piece == piece
                &&& a.to == to
                &&& a.from == pawn_origin(team, to as int, back as int)
                &&& if promotes(team, board.game.bounds, to) {
                    3 <= a.info <= 6
                } else {
                    a.info == info
                }
            },
{
    match team {
        Team::White => {
            add_white_action(board, actions, Action::from(to - back, to, piece).with_info(info));
        },
        Team::Black => {
            add_black_action(board, actions, Action::from(to + back, to, piece).with_info(info));
        },
    }
}

/// Lists the moves of the pawns of `team` that reach `targets`, lowest
/// target first, each from `back` squares behind its target.
fn push_pawn_moves(
    board: &Board,
    actions: &mut Vec<Action>,
    targets: BitBoard,
    team: Team,
    back: u16,
    piece: u8,
)
    requires
        board.game.board_ok(),
        forall|t: int|
            #![trigger targets.has(t)]
            targets.has(t) ==> 0 <= pawn_origin(team, t, back as int) < 64,
    ensures
        final(actions)@ == old(actions)@ + pawn_moves(
            targets.squares(),
            team,
            back as int,
            piece,
            board.game.bounds,
        ),
        forall|i: int|
            #![trigger final(actions)@[i]]
            old(actions)@.len() <= i < final(actions)@.len() ==> pawn_listed(
                final(actions)@[i],
                targets,
                team,
                back as int,
                piece,
                0,
                board.game.bounds,
            ),
{
    let ghost all = targets.squares();
    let ghost start = actions@;
    let ghost mut seen: Seq<u32> = Seq::empty();
    let mut it = targets.iter();
    let mut next = it.next();
    proof {
        lemma_squares_sound(targets.0, 0);
    }
    while next.is_some()
        invariant
            board.game.board_ok(),
            all == targets.squares(),
            start == old(actions)@,
            next matches Some(sq) ==> seen.push(sq) + it.remaining() == all,
            next.is_none() ==> seen == all,
            actions@ == start + pawn_moves(seen, team, back as int, piece, board.game.bounds),
            forall|k: int|
                #![trigger all[k]]
                0 <= k < all.len() ==> all[k] < 64 && targets.has(all[k] as int),
            forall|t: int|
                #![trigger targets.has(t)]
                targets.has(t) ==> 0 <= pawn_origin(team, t, back as int) < 64,
            forall|i: int|
                #![trigger actions@[i]]
                start.len() <= i < actions@.len() ==> pawn_listed(
                    actions@[i],
                    targets,
                    team,
                    back as int,
                    piece,
                    0,
                    board.game.bounds,
                ),
        decreases it.remaining().len() + (if next.is_some() { 1nat } else { 0nat }),
    {
        let to = next.unwrap();
        proof {
            assert(all[seen.len() as int] == to);
            assert(targets.has(to as int));
        }
        add_pawn_action(board, actions, team, to as u16, back, piece, 0);
        proof {
            assert(seen.push(to).drop_last() =~= seen);
            seen = seen.push(to);
        }
        let ghost before = it.remaining();
        next = it.next();
        proof {
            match next {
                Some(sq) => {
                    assert(seen.push(sq) + it.remaining() =~= seen + before);
                },
                None => {
                    assert(seen =~= seen + before);
                },
            }
        }
    }
}

/// Lists the en passant captures of `team`, whose pawns attack
/// `left_reach` to their left and `right_reach` to their right.
fn add_en_passant(
    board: &Board,
    actions: &mut Vec<Action>,
    piece_index: usize,
    team: Team,
    left_reach: BitBoard,
    right_reach: BitBoard,
)
    requires
        board.game.board_ok(),
        piece_index < PIECE_KINDS,
        left_reach == pawn_left_reach(board.state@, board.game.edges[0], piece_index as int, team),
        right_reach == pawn_right_reach(
            board.state@,
            board.game.edges[0],
            piece_index as int,
            team,
        ),
    ensures
        final(actions)@ == old(actions)@ + en_passant_actions(
            board.state@,
            board.last(),
            board.game.edges[0],
            board.game.bounds,
            piece_index as int,
            team,
        ),
        board.state@.wf() && board.state@.moving_team == team && piece_index == PAWN
            && board.state@.valid_actions(old(actions)@) ==> board.state@.valid_actions(
            final(actions)@,
        ),
{
    let ghost position = board.state@;
    let ghost found = en_passant_target(position, board.last(), piece_index as int, team);
    let piece = piece_index as u8;
    let count = board.history.len();
    if count == 0 {
        assert(actions@ =~= old(actions)@ + Seq::<Action>::empty());
        return ;
    }
    match board.history[count - 1] {
        ActionRecord::Null() => {
            assert(actions@ =~= old(actions)@ + Seq::<Action>::empty());
        },
        ActionRecord::Action(last_move) => {
            if last_move.from >= 64 || last_move.to >= 64 {
                assert(actions@ =~= old(actions)@ + Seq::<Action>::empty());
                return ;
            }
            let was_pawn_move = match board.state.piece_at(last_move.to) {
                Some(last_piece_index) => last_piece_index == piece_index,
                None => false,
            };
            let was_double_move = match team {
                Team::White => last_move.from >= 16 && last_move.from - 16 == last_move.to,
                Team::Black => last_move.from + 16 == last_move.to,
            };
            proof {
                lemma_meets_index(board.state@.team(team.next()), last_move.to);
            }
            let enemy = board.state.team(team.next());
            if !was_pawn_move || !was_double_move || enemy.and(
                BitBoard::index(last_move.to),
            ).is_empty() {
                assert(found.is_none());
                assert(actions@ =~= old(actions)@ + Seq::<Action>::empty());
                return ;
            }
            let capture: u16 = match team {
                Team::White => last_move.from - 8,
                Team::Black => last_move.from + 8,
            };
            let target = BitBoard::index(capture);
            let all = board.state.white.or(board.state.black);
            proof {
                lemma_meets_index(all, capture);
                lemma_meets_index(left_reach, capture);
                lemma_meets_index(right_reach, capture);
            }
            if all.and(target).is_set() {
                assert(found.is_none());
                assert(actions@ =~= old(actions)@ + Seq::<Action>::empty());
                return ;
            }
            assert(found == Some(capture));
            let (left_back, right_back): (u16, u16) = match team {
                Team::White => (7, 9),
                Team::Black => (9, 7),
            };
            let ghost valid_before = board.state@.wf() && board.state@.moving_team == team
                && piece_index == PAWN && board.state@.valid_actions(old(actions)@);
            let ghost mid = actions@;
            if left_reach.and(target).is_set() {
                add_pawn_action(board, actions, team, capture, left_back, piece, 1);
                proof {
                    if valid_before {
                        assert(position.square_ok(last_move.to as int));
                        assert(position.square_ok(pawn_origin(team, capture as int, left_back as int)));
                        assert(board.state@.valid_actions(actions@));
                    }
                }
            }
            let ghost mid = actions@;
            if right_reach.and(target).is_set() {
                add_pawn_action(board, actions, team, capture, right_back, piece, 1);
                proof {
                    if valid_before {
                        assert(position.square_ok(last_move.to as int));
                        assert(position.square_ok(pawn_origin(team, capture as int, right_back as int)));
                        assert(board.state@.valid_actions(actions@));
                    }
                }
            }
            proof {
                assert(actions@ =~= old(actions)@ + en_passant_actions(
                    board.state@,
                    board.last(),
                    board.game.edges[0],
                    board.game.bounds,
                    piece_index as int,
                    team,
                ));
            }
        },
    }
}

/// The moves of the white pawns.
pub fn list_white_pawn_actions(board: &Board, piece_index: usize) -> (actions: Vec<Action>)
    requires
        board.game.board_ok(),
        piece_index < PIECE_KINDS,
    ensures
        actions@ == pawn_actions(
            board.state@,
            board.last(),
            board.game.edges[0],
            board.game.bounds,
            piece_index as int,
            Team::White,
        ),
        board.state@.wf() && board.state@.moving_team == Team::White && piece_index == PAWN
            ==> board.state@.valid_actions(actions@),
{
    let edges = board.game.edges[0];

    let white = board.state.white;
    let black = board.state.black;
    let all = white.or(black);

    let pawns = board.state.pieces[piece_index];
    let white_pawns = pawns.and(white);

    let moves = white_pawns.up(1, 8).and_not(all);
    let first_moves = white_pawns.and(board.state.first_move).up(1, 8).and_not(all).up(1, 8).and_not(all);

    let up_once = white_pawns.up(1, 8);

    let possible_left_captures = up_once.and_not(edges.left).left(1);
    let possible_right_captures = up_once.and_not(edges.right).right(1);

    let left_captures = possible_left_captures.and(black);
    let right_captures = possible_right_captures.and(black);

    let mut actions: Vec<Action> = Vec::with_capacity(16);
    let piece = piece_index as u8;
    let ghost position = board.state@;
    let ghost check = position.wf() && position.moving_team == Team::White && piece_index == PAWN;

    push_pawn_moves(board, &mut actions, moves, Team::White, 8, piece);
    proof {
        if check {
            assert forall|i: int| 0 <= i < actions@.len() implies position.valid_action(
                #[trigger] actions@[i],
            ) by {
                let a = actions@[i];
                assert(position.square_ok(a.from as int));
                assert(position.square_ok(a.to as int));
            }
        }
    }
    let ghost done = actions@;
    push_pawn_moves(board, &mut actions, first_moves, Team::White, 16, piece);
    proof {
        if check {
            assert forall|i: int| 0 <= i < actions@.len() implies position.valid_action(
                #[trigger] actions@[i],
            ) by {
                let a = actions@[i];
                if i < done.len() {
                    assert(a == done[i]);
                } else {
                    assert(position.square_ok(a.from as int));
                    assert(position.square_ok(a.to as int));
                }
            }
        }
    }
    let ghost done = actions@;
    push_pawn_moves(board, &mut actions, left_captures, Team::White, 7, piece);
    proof {
        if check {
            assert forall|i: int| 0 <= i < actions@.len() implies position.valid_action(
                #[trigger] actions@[i],
            ) by {
                let a = actions@[i];
                if i < done.len() {
                    assert(a == done[i]);
                } else {
                    assert(position.square_ok(a.from as int));
                    assert(position.square_ok(a.to as int));
                }
            }
        }
    }
    let ghost done = actions@;
    push_pawn_moves(board, &mut actions, right_captures, Team::White, 9, piece);
    proof {
        if check {
            assert forall|i: int| 0 <= i < actions@.len() implies position.valid_action(
                #[trigger] actions@[i],
            ) by {
                let a = actions@[i];
                if i < done.len() {
                    assert(a == done[i]);
                } else {
                    assert(position.square_ok(a.from as int));
                    assert(position.square_ok(a.to as int));
                }
            }
        }
    }
    add_en_passant(
        board,
        &mut actions,
        piece_index,
        Team::White,
        possible_left_captures,
        possible_right_captures,
    );
    actions
}

/// The moves of the black pawns.
pub fn list_black_pawn_actions(board: &Board, piece_index: usize) -> (actions: Vec<Action>)
    requires
        board.game.board_ok(),
        piece_index < PIECE_KINDS,
    ensures
        actions@ == pawn_actions(
            board.state@,
            board.last(),
            board.game.edges[0],
            board.game.bounds,
            piece_index as int,
            Team::Black,
        ),
        board.state@.wf() && board.state@.moving_team == Team::Black && piece_index == PAWN
            ==> board.state@.valid_actions(actions@),
{
    let edges = board.game.edges[0];

    let white = board.state.white;
    let black = board.state.black;
    let all = white.or(black);

    let pawns = board.state.pieces[piece_index];
    let black_pawns = pawns.and(black);

    let moves = black_pawns.down(1, 8).and_not(all);
    let first_moves = black_pawns.and(board.state.first_move).down(1, 8).and_not(all).down(1, 8).and_not(all);

    let down_once = black_pawns.down(1, 8);

    let possible_left_captures = down_once.and_not(edges.left).left(1);
    let possible_right_captures = down_once.and_not(edges.right).right(1);

    let left_captures = possible_left_captures.and(white);
    let right_captures = possible_right_captures.and(white);

    let mut actions: Vec<Action> = Vec::with_capacity(16);
    let piece = piece_index as u8;
    let ghost position = board.state@;
    let ghost check = position.wf() && position.moving_team == Team::Black && piece_index == PAWN;

    push_pawn_moves(board, &mut actions, moves, Team::Black, 8, piece);
    proof {
        if check {
            assert forall|i: int| 0 <= i < actions@.len() implies position.valid_action(
                #[trigger] actions@[i],
            ) by {
                let a = actions@[i];
                assert(position.square_ok(a.from as int));
                assert(position.square_ok(a.to as int));
            }
        }
    }
    let ghost done = actions@;
    push_pawn_moves(board, &mut actions, first_moves, Team::Black, 16, piece);
    proof {
        if check {
            assert forall|i: int| 0 <= i < actions@.len() implies position.valid_action(
                #[trigger] actions@[i],
            ) by {
                let a = actions@[i];
                if i < done.len() {
                    assert(a == done[i]);
                } else {
                    assert(position.square_ok(a.from as int));
                    assert(position.square_ok(a.to as int));
                }
            }
        }
    }
    let ghost done = actions@;
    push_pawn_moves(board, &mut actions, left_captures, Team::Black, 9, piece);
    proof {
        if check {
            assert forall|i: int| 0 <= i < actions@.len() implies position.valid_action(
                #[trigger] actions@[i],
            ) by {
                let a = actions@[i];
                if i < done.len() {
                    assert(a == done[i]);
                } else {
                    assert(position.square_ok(a.from as int));
                    assert(position.square_ok(a.to as int));
                }
            }
        }
    }
    let ghost done = actions@;
    push_pawn_moves(board, &mut actions, right_captures, Team::Black, 7, piece);
    proof {
        if check {
            assert forall|i: int| 0 <= i < actions@.len() implies position.valid_action(
                #[trigger] actions@[i],
            ) by {
                let a = actions@[i];
                if i < done.len() {
                    assert(a == done[i]);
                } else {
                    assert(position.square_ok(a.from as int));
                    assert(position.square_ok(a.to as int));
                }
            }
        }
    }
    add_en_passant(
        board,
        &mut actions,
        piece_index,
        Team::Black,
        possible_left_captures,
        possible_right_captures,
    );
    actions
}

/// The rules of the pawn.
pub struct PawnRules;

impl PawnRules {
    /// After a position was set up: pawns that do not stand on the row on
    /// which their team's pawns start count as moved.
    pub fn load(&self, board: &mut Board, piece_index: usize)
        requires
            piece_index < PIECE_KINDS,
            old(board).game.edges@.len() >= 1,
        ensures
            final(board).game == old(board).game,
            final(board).history == old(board).history,
            final(board).state@ == (BoardView {
                first_move: started_pawns(
                    old(board).state@,
                    old(board).game.edges[0],
                    piece_index as int,
                ),
                ..old(board).state@
            }),
    {
        let edges = board.game.edges[0];

        let pawns = board.state.pieces[piece_index];

        let moved_white_pawns = pawns.and(board.state.white).and_not(edges.bottom.up(1, 8));
        let moved_black_pawns = pawns.and(board.state.black).and_not(edges.top.down(1, 8));

        board.state.first_move = board.state.first_move.and_not(moved_white_pawns).and_not(
            moved_black_pawns,
        );
    }

    /// The moves of the pawns of the moving team.
    pub fn list_actions(&self, board: &Board, piece_index: usize) -> (actions: Vec<Action>)
        requires
            board.game.board_ok(),
            piece_index < PIECE_KINDS,
        ensures
            actions@ == pawn_actions(
                board.state@,
                board.last(),
                board.game.edges[0],
                board.game.bounds,
                piece_index as int,
                board.state@.moving_team,
            ),
            board.state@.wf() && piece_index == PAWN ==> board.state@.valid_actions(actions@),
    {
        if board.state.moving_team == Team::White {
            list_white_pawn_actions(board, piece_index)
        } else {
            list_black_pawn_actions(board, piece_index)
        }
    }

    /// The squares that the pawns of the moving team attack, whatever the
    /// mask.
    pub fn capture_mask(&self, board: &Board, piece_index: usize, mask: BitBoard) -> (r: BitBoard)
        requires
            piece_index < PIECE_KINDS,
            board.game.edges@.len() >= 1,
        ensures
            r == pawn_captures(
                board.state@,
                board.game.edges[0],
                piece_index as int,
                board.state@.moving_team,
            ),
    {
        if board.state.moving_team == Team::White {
            list_white_pawn_captures(board, piece_index)
        } else {
            list_black_pawn_captures(board, piece_index)
        }
    }

    /// The name of a pawn's move: the two squares, and for a promotion the
    /// small letter of the kind that the pawn turns into.
    pub fn display_action(&self, board: &Board, action: Action) -> (names: Vec<String>)
        ensures
            texts_view(names@) == seq![pawn_name(action)],
    {
        let mut name = chars_of(name_move(action.from, action.to).as_str());
        if action.info > 1 && action.info - 2 < 6 {
            name.push(letter_of(action.info - 2));
        }
        let mut names: Vec<String> = Vec::new();
        names.push(text_of(&name));
        proof {
            assert(texts_view(names@) =~= seq![pawn_name(action)]);
        }
        names
    }

    /// Applies a pawn's move to the position: an ordinary move with the tag
    /// 0, an en passant capture with the tag 1, else a promotion. The side
    /// to move stays.
    pub fn make_move(&self, board: &mut Board, action: Action)
        requires
            old(board).state@.wf(),
            action.piece == PAWN,
            old(board).state@.valid_action(action),
        ensures
            final(board).state@ == old(board).state@.moved(action),
            final(board).state@.wf(),
            final(board).game == old(board).game,
            final(board).history == old(board).history,
    {
        if action.info == 0 {
            make_chess_move(&mut board.state, action)
        } else if action.info == 1 {
            make_en_passant_move(&mut board.state, action)
        } else {
            make_promotion_move(&mut board.state, action)
        }
    }
}

/// The squares that count as unmoved once the pawns off their starting
/// rows are taken out: white pawns start one row above the bottom edge,
/// black pawns one row below the top edge.
pub open spec fn started_pawns(position: BoardView, edges: Edges, kind: int) -> BitBoard {
    let pawns = position.pieces[kind];
    position.first_move.and_not(pawns.and(position.white).and_not(edges.bottom.up(1, 8))).and_not(
        pawns.and(position.black).and_not(edges.top.down(1, 8)),
    )
}

impl crate::game::piece::PieceRules for PawnRules {
    /// The board is the chess board.
    open spec fn ready(&self, game: &crate::game::Game, piece_index: int) -> bool {
        game.board_ok()
    }

    /// Pawns have no tables: nothing is set up.
    open spec fn processed(
        &self,
        before: crate::game::Game,
        after: crate::game::Game,
        piece_index: int,
    ) -> bool {
        after == before
    }

    open spec fn unmoved(&self, game: &crate::game::Game, position: BoardView, piece_index: int)
        -> BitBoard {
        started_pawns(position, game.edges[0], piece_index)
    }

    open spec fn listed(
        &self,
        game: &crate::game::Game,
        position: BoardView,
        last: Option<ActionRecord>,
        piece_index: int,
    ) -> Seq<Action> {
        pawn_actions(position, last, game.edges[0], game.bounds, piece_index, position.moving_team)
    }

    open spec fn allows(&self, position: BoardView, action: Action) -> bool {
        action.piece == PAWN && position.valid_action(action)
    }

    open spec fn moved(&self, position: BoardView, action: Action) -> BoardView {
        position.moved(action)
    }

    open spec fn captured(
        &self,
        game: &crate::game::Game,
        position: BoardView,
        piece_index: int,
        mask: BitBoard,
    ) -> BitBoard {
        pawn_captures(position, game.edges[0], piece_index, position.moving_team)
    }

    open spec fn names(&self, position: BoardView, action: Action) -> Seq<Seq<char>> {
        seq![pawn_name(action)]
    }

    fn process(&self, game: &mut crate::game::Game, piece_index: usize) {
    }

    fn load(&self, board: &mut Board, piece_index: usize) {
        PawnRules::load(self, board, piece_index)
    }

    fn list_actions(&self, board: &Board, piece_index: usize) -> (actions: Vec<Action>) {
        PawnRules::list_actions(self, board, piece_index)
    }

    fn make_move(&self, board: &mut Board, action: Action) {
        PawnRules::make_move(self, board, action)
    }

    fn display_action(&self, board: &Board, action: Action) -> (names: Vec<String>) {
        let names = PawnRules::display_action(self, board, action);
        proof {
            assert(texts_view(names@).len() == names@.len());
        }
        names
    }

    fn display_uci_action(&self, board: &Board, action: Action) -> (name: String) {
        let names = PawnRules::display_action(self, board, action);
        proof {
            assert(texts_view(names@).len() == names@.len());
            assert(texts_view(names@)[0] == names@[0]@);
        }
        names[0].clone()
    }

    fn capture_mask(&self, board: &Board, piece_index: usize, mask: BitBoard) -> (r: BitBoard) {
        PawnRules::capture_mask(self, board, piece_index, mask)
    }
}

/// The pawn by its names and its rules.
pub fn create_pawn() -> (piece: crate::game::piece::Piece<PawnRules>)
    ensures
        piece.symbol@ == "p"@,
        piece.name@ == "pawn"@,
{
    crate::game::piece::Piece::new("p", "pawn", PawnRules)
}

} // verus!
