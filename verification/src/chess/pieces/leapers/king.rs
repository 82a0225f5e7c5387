//! The king: its steps, and castling.
use vstd::prelude::*;
use crate::bitboard::{BitBoard, Edges};
use crate::bitboard::group_bitboard_has;
use crate::chess::pieces::leapers::leaper::LeaperMoves;
use crate::bitboard::{lemma_meets_index, lemma_squares_sound};
use crate::chess::{ChessProcessor, KING, ROOK, spec_attacks};
use crate::game::action::Action;
use crate::game::{Board, BoardState, BoardView, Game, Team, NO_PIECE, PIECE_KINDS};

verus! {

broadcast use group_bitboard_has;

impl BoardView {
    /// Where the king lands when it castles from `from` towards `to`: two
    /// squares towards the rook.
    pub open spec fn castled_king(from: u16, to: u16) -> int {
        if to > from {
            from + 2
        } else {
            from - 2
        }
    }

    /// Where the rook lands when the king castles from `from` towards `to`:
    /// on the square that the king passes over.
    pub open spec fn castled_rook(from: u16, to: u16) -> int {
        if to > from {
            from + 1
        } else {
            from - 1
        }
    }

    /// What castling needs of the position for the move to be applied: the
    /// king of the moving team on the square left, a piece of another kind
    /// and of the same team on the square that the move names, and the two
    /// squares on which king and rook land on the board and free, but for
    /// the rook itself.
    pub open spec fn can_castle(self, action: Action) -> bool {
        let king_to = Self::castled_king(action.from, action.to);
        let rook_to = Self::castled_rook(action.from, action.to);
        &&& action.from < 64
        &&& action.to < 64
        &&& action.from != action.to
        &&& action.piece < PIECE_KINDS
        &&& self.mailbox[action.from as int] == action.piece
        &&& self.mailbox[action.to as int] != action.piece
        &&& self.team_to_move().has(action.from as int)
        &&& self.team_to_move().has(action.to as int)
        &&& 0 <= king_to < 64
        &&& 0 <= rook_to < 64
        &&& (king_to == action.to || !self.occupied().has(king_to))
        &&& (rook_to == action.to || !self.occupied().has(rook_to))
    }

    /// The position after castling, the side to move left as it is: king
    /// and rook leave their squares and land on theirs, and none of the
    /// four squares counts as unmoved any more.
    pub open spec fn after_castling(self, action: Action) -> BoardView {
        let king_to = Self::castled_king(action.from, action.to);
        let rook_to = Self::castled_rook(action.from, action.to);
        let king = BitBoard::index(action.from);
        let rook = BitBoard::index(action.to);
        let king_relocated = BitBoard::index(king_to as u16);
        let rook_relocated = BitBoard::index(rook_to as u16);
        let kind = action.piece as int;
        let rook_kind = self.mailbox[action.to as int];
        let kings = self.pieces.update(kind, self.pieces[kind].xor(king).or(king_relocated));
        let team = self.team_to_move().xor(king).xor(rook).or(king_relocated).or(rook_relocated);
        BoardView {
            moving_team: self.moving_team,
            first_move: self.first_move.and_not(king.or(rook).or(king_relocated).or(rook_relocated)),
            white: if self.moving_team == Team::White {
                team
            } else {
                self.white
            },
            black: if self.moving_team == Team::White {
                self.black
            } else {
                team
            },
            pieces: kings.update(
                rook_kind as int,
                kings[rook_kind as int].xor(rook).or(rook_relocated),
            ),
            mailbox: self.mailbox.update(action.from as int, NO_PIECE).update(
                action.to as int,
                NO_PIECE,
            ).update(king_to, action.piece).update(rook_to, rook_kind),
        }
    }

    /// Castling leaves a well-formed position well formed.
    pub proof fn lemma_after_castling_wf(self, action: Action)
        requires
            self.wf(),
            self.can_castle(action),
        ensures
            self.after_castling(action).wf(),
    {
        let next = self.after_castling(action);
        let king_to = Self::castled_king(action.from, action.to);
        let rook_to = Self::castled_rook(action.from, action.to);
        assert(self.square_ok(action.to as int));
        assert(self.square_ok(action.from as int));
        assert(self.square_ok(king_to));
        assert(self.square_ok(rook_to));
        assert forall|sq: int| 0 <= sq < 64 implies #[trigger] next.square_ok(sq) by {
            assert(self.square_ok(sq));
            assert forall|k: int| 0 <= k < PIECE_KINDS implies #[trigger] next.pieces[k].has(sq)
                == (next.mailbox[sq] == k) by {
                assert(self.pieces[k].has(sq) == (self.mailbox[sq] == k));
                assert(self.pieces[k].has(action.to as int) == (self.mailbox[action.to as int]
                    == k));
                assert(self.pieces[k].has(action.from as int) == (self.mailbox[action.from as int]
                    == k));
                assert(self.pieces[k].has(king_to) == (self.mailbox[king_to] == k));
                assert(self.pieces[k].has(rook_to) == (self.mailbox[rook_to] == k));
            }
        }
    }
}

/// Applies castling to the position; the side to move stays. The move names
/// the king's square and the rook's.
pub fn make_castling_move(state: &mut BoardState, action: Action)
    requires
        old(state)@.wf(),
        old(state)@.can_castle(action),
    ensures
        final(state)@ == old(state)@.after_castling(action),
        final(state)@.wf(),
{
    let piece_index = action.piece as usize;
    let rook_kind = state.mailbox[action.to as usize];
    proof {
        assert(state@.square_ok(action.to as int));
    }
    let rook_ind = rook_kind as usize;

    let (relocated_king, relocated_rook): (u16, u16) = if action.to > action.from {
        (action.from + 2, action.from + 1)
    } else {
        ((action.from - 2) as u16, (action.from - 1) as u16)
    };

    let king = BitBoard::index(action.from);
    let rook = BitBoard::index(action.to);
    let king_relocated = BitBoard::index(relocated_king);
    let rook_relocated = BitBoard::index(relocated_rook);

    state.pieces[piece_index] = state.pieces[piece_index].xor(king).or(king_relocated);
    state.pieces[rook_ind] = state.pieces[rook_ind].xor(rook).or(rook_relocated);

    match state.moving_team {
        Team::White => {
            state.white = state.white.xor(king).xor(rook).or(king_relocated).or(rook_relocated);
        },
        Team::Black => {
            state.black = state.black.xor(king).xor(rook).or(king_relocated).or(rook_relocated);
        },
    }
    state.first_move = state.first_move.and_not(
        king.or(rook).or(king_relocated).or(rook_relocated),
    );
    state.mailbox[action.from as usize] = NO_PIECE;
    state.mailbox[action.to as usize] = NO_PIECE;
    state.mailbox[relocated_king as usize] = action.piece;
    state.mailbox[relocated_rook as usize] = rook_kind;
    proof {
        assert(state@.pieces =~= old(state)@.after_castling(action).pieces);
        assert(state@.mailbox =~= old(state)@.after_castling(action).mailbox);
        old(state)@.lemma_after_castling_wf(action);
    }
}

/// How the king leaps.
pub struct KingMoves;

impl LeaperMoves for KingMoves {
    /// One square in each of the eight directions.
    open spec fn spec_leaps(&self, pos: BitBoard, edges: &Edges) -> BitBoard {
        let vertical = pos.or(pos.try_up(edges, 1, 8)).or(pos.try_down(edges, 1, 8));
        vertical.or(vertical.try_right(edges, 1)).or(vertical.try_left(edges, 1)).and_not(pos)
    }

    fn leaps(&self, pos: BitBoard, edges: &Edges) -> (r: BitBoard) {
        let up = pos.try_up(edges, 1, 8);
        let down = pos.try_down(edges, 1, 8);

        let vertical = pos.or(up).or(down);

        let right = vertical.try_right(edges, 1);
        let left = vertical.try_left(edges, 1);

        vertical.or(right).or(left).and_not(pos)
    }
}

/// Whether the king on `king` may castle with the rook on `rook`: nothing
/// stands between them, the squares on which the two land are on the board
/// and free, and the other team attacks none of the squares from the king's
/// to the one on which it lands.
pub open spec fn castle_ok(game: &Game, position: BoardView, king: u32, rook: u32) -> bool {
    let king_dest = BoardView::castled_king(king as u16, rook as u16);
    let rook_dest = BoardView::castled_rook(king as u16, rook as u16);
    let path = BitBoard::between_inclusive(king as usize, king_dest as usize);
    &&& !BitBoard::between(king as usize, rook as usize).and(position.occupied()).is_set()
    &&& 0 <= king_dest < 64
    &&& (king_dest == rook || !position.occupied().has(king_dest))
    &&& (rook_dest == rook || !position.occupied().has(rook_dest))
    &&& !path.or(BitBoard::index(king as u16)).and(
        spec_attacks(game, position.passed(), path),
    ).is_set()
}

/// The ways in which the king on `king` castles with one of `rooks`, rook
/// by rook: the move from the king's square to the rook's, with the tag 1.
pub open spec fn castles_with(
    game: &Game,
    position: BoardView,
    king: u32,
    rooks: Seq<u32>,
    piece: u8,
) -> Seq<Action>
    decreases rooks.len(),
{
    if rooks.len() == 0 {
        Seq::empty()
    } else {
        castles_with(game, position, king, rooks.drop_last(), piece) + if castle_ok(
            game,
            position,
            king,
            rooks.last(),
        ) {
            seq![Action { from: king as u16, to: rooks.last() as u16, piece, info: 1 }]
        } else {
            Seq::empty()
        }
    }
}

/// The ways in which one of `kings` castles with one of `rooks`, king by
/// king.
pub open spec fn castles_of(
    game: &Game,
    position: BoardView,
    kings: Seq<u32>,
    rooks: Seq<u32>,
    piece: u8,
) -> Seq<Action>
    decreases kings.len(),
{
    if kings.len() == 0 {
        Seq::empty()
    } else {
        castles_of(game, position, kings.drop_last(), rooks, piece) + castles_with(
            game,
            position,
            kings.last(),
            rooks,
            piece,
        )
    }
}

/// The ways in which the moving team castles: each of its kings that has
/// not moved with each of its rooks that has not moved.
pub open spec fn king_castles(game: &Game, position: BoardView, kind: int) -> Seq<Action> {
    let team = position.team_to_move();
    castles_of(
        game,
        position,
        position.pieces[kind].and(team).and(position.first_move).squares(),
        position.pieces[ROOK as int].and(team).and(position.first_move).squares(),
        kind as u8,
    )
}

/// Whether the king on `king` may castle with the rook on `rook`.
fn can_castle_with(board: &Board, king: u32, rook: u32) -> (r: bool)
    requires
        board.game.chess_ok(),
        king < 64,
        rook < 64,
    ensures
        r == castle_ok(board.game, board.state@, king, rook),
{
    let between_squares = BitBoard::between(king as usize, rook as usize);
    let occupied = board.state.white.or(board.state.black);

    // Other pieces in the way.
    if between_squares.and(occupied).is_set() {
        return false;
    }
    if rook > king {
        if king + 2 >= 64 {
            return false;
        }
    } else {
        if king < 2 {
            return false;
        }
    }
    let king_dest: u32 = if rook > king {
        king + 2
    } else {
        (king - 2) as u32
    };
    let rook_dest: u32 = if rook > king {
        king + 1
    } else {
        (king - 1) as u32
    };
    proof {
        lemma_meets_index(occupied, king_dest as u16);
        lemma_meets_index(occupied, rook_dest as u16);
    }
    if king_dest != rook && occupied.and(BitBoard::index(king_dest as u16)).is_set() {
        return false;
    }
    if rook_dest != rook && occupied.and(BitBoard::index(rook_dest as u16)).is_set() {
        return false;
    }
    let between_dest_squares = BitBoard::between_inclusive(king as usize, king_dest as usize);

    // What the other team attacks.
    let turned = Board {
        game: board.game,
        state: BoardState {
            moving_team: board.state.moving_team.next(),
            first_move: board.state.first_move,
            white: board.state.white,
            black: board.state.black,
            pieces: board.state.pieces,
            mailbox: board.state.mailbox,
        },
        history: Vec::new(),
    };
    proof {
        assert(turned.state@ == board.state@.passed());
    }
    let mask = ChessProcessor.attacks(&turned, between_dest_squares);

    // No castling through check or out of it.
    !between_dest_squares.or(BitBoard::index(king as u16)).and(mask).is_set()
}

/// The ways in which the moving team castles. The move is written as the
/// king going to where the rook is.
pub fn castling_actions(board: &Board, piece_index: usize) -> (castles: Vec<Action>)
    requires
        board.game.chess_ok(),
        piece_index < PIECE_KINDS,
        board.state@.wf(),
    ensures
        castles@ == king_castles(board.game, board.state@, piece_index as int),
        piece_index == KING ==> board.state@.valid_actions(castles@),
{
    let moving_team = board.state.team_to_move();
    let mut castles: Vec<Action> = Vec::with_capacity(2);
    let piece = piece_index as u8;
    let kings = board.state.pieces[piece_index].and(moving_team).and(board.state.first_move);
    let rooks = board.state.pieces[ROOK].and(moving_team).and(board.state.first_move);
    let ghost position = board.state@;

    let ghost mut seen: Seq<u32> = Seq::empty();
    let mut it = kings.iter();
    let mut next = it.next();
    proof {
        lemma_squares_sound(kings.0, 0);
        lemma_squares_sound(rooks.0, 0);
    }
    while next.is_some()
        invariant
            board.game.chess_ok(),
            piece_index < PIECE_KINDS,
            piece == piece_index,
            position == board.state@,
            position.wf(),
            moving_team == position.team_to_move(),
            kings == position.pieces[piece_index as int].and(moving_team).and(position.first_move),
            rooks == position.pieces[ROOK as int].and(moving_team).and(position.first_move),
            next matches Some(sq) ==> seen.push(sq) + it.remaining() == kings.squares(),
            next.is_none() ==> seen == kings.squares(),
            castles@ == castles_of(board.game, position, seen, rooks.squares(), piece),
            piece_index == KING ==> position.valid_actions(castles@),
            forall|k: int|
                #![trigger kings.squares()[k]]
                0 <= k < kings.squares().len() ==> kings.squares()[k] < 64 && kings.has(
                    kings.squares()[k] as int,
                ),
            forall|k: int|
                #![trigger rooks.squares()[k]]
                0 <= k < rooks.squares().len() ==> rooks.squares()[k] < 64 && rooks.has(
                    rooks.squares()[k] as int,
                ),
        decreases it.remaining().len() + (if next.is_some() { 1nat } else { 0nat }),
    {
        let king = next.unwrap();
        proof {
            assert(kings.squares()[seen.len() as int] == king);
        }
        let pos = king as u16;
        let ghost before_king = castles@;

        let ghost mut seen_rooks: Seq<u32> = Seq::empty();
        let mut rook_it = rooks.iter();
        let mut next_rook = rook_it.next();
        while next_rook.is_some()
            invariant
                board.game.chess_ok(),
                piece_index < PIECE_KINDS,
                piece == piece_index,
                position == board.state@,
                position.wf(),
                moving_team == position.team_to_move(),
                kings == position.pieces[piece_index as int].and(moving_team).and(
                    position.first_move,
                ),
                rooks == position.pieces[ROOK as int].and(moving_team).and(position.first_move),
                king < 64,
                kings.has(king as int),
                pos == king,
                next_rook matches Some(sq) ==> seen_rooks.push(sq) + rook_it.remaining()
                    == rooks.squares(),
                next_rook.is_none() ==> seen_rooks == rooks.squares(),
                castles@ == before_king + castles_with(
                    board.game,
                    position,
                    king,
                    seen_rooks,
                    piece,
                ),
                piece_index == KING ==> position.valid_actions(castles@),
                forall|k: int|
                    #![trigger rooks.squares()[k]]
                    0 <= k < rooks.squares().len() ==> rooks.squares()[k] < 64 && rooks.has(
                        rooks.squares()[k] as int,
                    ),
            decreases rook_it.remaining().len() + (if next_rook.is_some() { 1nat } else { 0nat }),
        {
            let rook = next_rook.unwrap();
            proof {
                assert(rooks.squares()[seen_rooks.len() as int] == rook);
            }
            let ghost before_rook = castles@;
            if can_castle_with(board, king, rook) {
                castles.push(Action::from(pos, rook as u16, piece).with_info(1));
                proof {
                    if piece_index == KING {
                        let a = Action { from: pos, to: rook as u16, piece, info: 1 };
                        assert(position.square_ok(king as int));
                        assert(position.square_ok(rook as int));
                        assert(position.can_castle(a));
                        assert forall|i: int| 0 <= i < castles@.len() implies position.valid_action(
                            #[trigger] castles@[i],
                        ) by {
                            if i < before_rook.len() {
                                assert(castles@[i] == before_rook[i]);
                            }
                        }
                    }
                }
            }
            proof {
                assert(seen_rooks.push(rook).drop_last() =~= seen_rooks);
                seen_rooks = seen_rooks.push(rook);
                assert(castles@ =~= before_king + castles_with(
                    board.game,
                    position,
                    king,
                    seen_rooks,
                    piece,
                ));
            }
            let ghost before = rook_it.remaining();
            next_rook = rook_it.next();
            proof {
                match next_rook {
                    Some(sq) => {
                        assert(seen_rooks.push(sq) + rook_it.remaining() =~= seen_rooks + before);
                    },
                    None => {
                        assert(seen_rooks =~= seen_rooks + before);
                    },
                }
            }
        }
        proof {
            assert(seen.push(king).drop_last() =~= seen);
            seen = seen.push(king);
        }
        let ghost before = it.remaining();
        next = it.next();
        proof {
            match next {
                Some(sq) => {
                    assert(seen.push(sq) + it.remaining() =~= seen + before);
                },
                None => {
                    assert(seen =~= seen + before);
                },
            }
        }
    }
    castles
}

} // verus!
