//! Moves, their notation, and the ordinary way of applying one.
use vstd::prelude::*;
use crate::bitboard::BitBoard;
use crate::bitboard::group_bitboard_has;
use crate::game::{BoardState, BoardView, Team, NO_PIECE, PIECE_KINDS};

verus! {

broadcast use group_bitboard_has;

/// One move: the square left, the square reached, a tag that tells special
/// moves apart, and the kind of the piece that moves.
#[derive(Clone, Copy, Debug, PartialEq, Eq, Structural, PartialOrd, Ord)]
pub struct Action {
    pub from: u16,
    pub to: u16,
    pub info: u8,
    pub piece: u8,
}

/// What the history keeps of one ply.
#[derive(Clone, Copy, Debug, PartialEq, Eq, Structural, PartialOrd, Ord)]
pub enum ActionRecord {
    Action(Action),
    Null(),
}

/// `String::push`: the character is added at the end of the text.
pub assume_specification[ String::push ](s: &mut String, c: char)
    ensures
        final(s)@ == old(s)@.push(c),
;

/// The letter of column `file`, counted from `a`.
pub open spec fn file_char(file: int) -> char {
    (('a' as u8) + file) as u8 as char
}

/// The digit of row `rank`, counted from `1`.
pub open spec fn rank_char(rank: int) -> char {
    (('1' as u8) + rank) as u8 as char
}

/// The name of a square of the 8 by 8 board; `N/A` for what is none.
pub open spec fn square_name(index: u16) -> Seq<char> {
    if index > 63 {
        seq!['N', '/', 'A']
    } else {
        seq![file_char((index % 8) as int), rank_char((index / 8) as int)]
    }
}

/// The square that a name stands for, if it is the name of one.
pub open spec fn named_square(name: Seq<char>) -> Option<u16> {
    if name.len() == 2 && 'a' <= name[0] <= 'h' && '1' <= name[1] <= '8' {
        Some((((name[1] as u8) - ('1' as u8)) * 8 + ((name[0] as u8) - ('a' as u8))) as u16)
    } else {
        None
    }
}

/// The name of a square of the 8 by 8 board: the letter of its column and
/// the digit of its row; `N/A` for a number that is no square.
pub fn index_to_square(index: u16) -> (name: String)
    ensures
        name@ == square_name(index),
{
    let mut out = String::new();
    if index > 63 {
        out.push('N');
        out.push('/');
        out.push('A');
        assert(out@ =~= square_name(index));
        return out;
    }
    let file: u8 = (index % 8) as u8;
    let rank: u8 = (index / 8) as u8;

    let file_char: char = (97u8 + file) as char;
    let rank_char: char = (49u8 + rank) as char;

    out.push(file_char);
    out.push(rank_char);
    assert(out@ =~= square_name(index));
    out
}

/// The square that a name stands for, if it is the name of one.
pub fn square_to_index(square: &str) -> (r: Option<u16>)
    ensures
        r == named_square(square@),
{
    if square.unicode_len() != 2 {
        return None;
    }
    let file = square.get_char(0);
    let rank = square.get_char(1);

    if file < 'a' || file > 'h' || rank < '1' || rank > '8' {
        return None;
    }
    let file_index: u8 = (file as u8) - 97u8;
    let rank_index: u8 = (rank as u8) - 49u8;

    Some((rank_index * 8 + file_index) as u16)
}

/// The square that the characters name, if they name one.
pub fn square_of(name: &Vec<char>) -> (r: Option<u16>)
    ensures
        r == named_square(name@),
{
    if name.len() != 2 {
        return None;
    }
    let file = name[0];
    let rank = name[1];

    if file < 'a' || file > 'h' || rank < '1' || rank > '8' {
        return None;
    }
    let file_index: u8 = (file as u8) - 97u8;
    let rank_index: u8 = (rank as u8) - 49u8;

    Some((rank_index * 8 + file_index) as u16)
}

/// A square name is read back as the square it was written for.
pub proof fn lemma_square_name_round_trip(index: u16)
    requires
        index < 64,
    ensures
        named_square(square_name(index)) == Some(index),
{
}

impl Action {
    /// An ordinary move of a piece of kind `piece`.
    pub fn from(from: u16, to: u16, piece: u8) -> (a: Action)
        ensures
            a == (Action { from, to, piece, info: 0 }),
    {
        Action { from, to, piece, info: 0 }
    }

    /// The same move with another tag.
    pub open spec fn spec_with_info(self, info: u8) -> Action {
        Action { from: self.from, to: self.to, piece: self.piece, info }
    }

    /// The same move with another tag.
    #[verifier::when_used_as_spec(spec_with_info)]
    pub fn with_info(self, info: u8) -> (a: Action)
        ensures
            a == self.spec_with_info(info),
    {
        Action { from: self.from, to: self.to, piece: self.piece, info }
    }
}

impl BoardView {
    /// Every one of `actions` is an ordinary move of a piece of kind
    /// `piece` that the position allows.
    pub open spec fn plain_moves(self, actions: Seq<Action>, piece: int) -> bool {
        forall|i: int|
            #![trigger actions[i]]
            0 <= i < actions.len() ==> self.can_move(actions[i]) && actions[i].info == 0
                && actions[i].piece == piece
    }

    /// What an ordinary move needs: a piece of the moving team and of the
    /// kind that the move names on the square left, and none of that team
    /// on the square reached.
    pub open spec fn can_move(self, action: Action) -> bool {
        &&& action.from < 64
        &&& action.to < 64
        &&& action.piece < PIECE_KINDS
        &&& self.mailbox[action.from as int] == action.piece
        &&& self.team_to_move().has(action.from as int)
        &&& !self.team_to_move().has(action.to as int)
    }

    /// The vectors of the kinds once what stands on `square` is taken off.
    pub open spec fn pieces_without(self, square: u16) -> Seq<BitBoard> {
        match self.piece_at(square) {
            Some(kind) => self.pieces.update(
                kind as int,
                self.pieces[kind as int].and_not(BitBoard::index(square)),
            ),
            None => self.pieces,
        }
    }

    /// The squares of `team` after the moving team went from `from` to `to`
    /// and took what stood there.
    pub open spec fn team_after(self, team: Team, from: u16, to: u16) -> BitBoard {
        if team == self.moving_team {
            self.team(team).xor(BitBoard::index(from)).or(BitBoard::index(to))
        } else if self.piece_at(to).is_some() {
            self.team(team).xor(BitBoard::index(to))
        } else {
            self.team(team)
        }
    }

    /// The position after an ordinary move, the side to move left as it is:
    /// what stood on the square reached is gone, the piece stands there, and
    /// neither square counts as unmoved any more.
    pub open spec fn after_move(self, action: Action) -> BoardView {
        let from = BitBoard::index(action.from);
        let to = BitBoard::index(action.to);
        let kind = action.piece as int;
        let rest = self.pieces_without(action.to);
        BoardView {
            moving_team: self.moving_team,
            first_move: self.first_move.and_not(from.or(to)),
            white: self.team_after(Team::White, action.from, action.to),
            black: self.team_after(Team::Black, action.from, action.to),
            pieces: rest.update(kind, rest[kind].xor(from).or(to)),
            mailbox: self.mailbox.update(action.from as int, NO_PIECE).update(
                action.to as int,
                action.piece,
            ),
        }
    }

    /// An ordinary move leaves a well-formed position well formed.
    pub proof fn lemma_after_move_wf(self, action: Action)
        requires
            self.wf(),
            self.can_move(action),
        ensures
            self.after_move(action).wf(),
    {
        let next = self.after_move(action);
        assert forall|sq: int| 0 <= sq < 64 implies #[trigger] next.square_ok(sq) by {
            assert(self.square_ok(sq));
            assert(self.square_ok(action.to as int));
            assert(self.square_ok(action.from as int));
            assert forall|k: int| 0 <= k < PIECE_KINDS implies #[trigger] next.pieces[k].has(sq)
                == (next.mailbox[sq] == k) by {
                assert(self.pieces[k].has(sq) == (self.mailbox[sq] == k));
                assert(self.pieces[k].has(action.to as int) == (self.mailbox[action.to as int]
                    == k));
            }
        }
    }
}

/// Applies an ordinary move to the position; the side to move stays.
pub fn make_chess_move(state: &mut BoardState, action: Action)
    requires
        old(state)@.wf(),
        old(state)@.can_move(action),
    ensures
        final(state)@ == old(state)@.after_move(action),
        final(state)@.wf(),
{
    let piece_index = action.piece as usize;
    let victim_index = state.piece_at(action.to);

    let from = BitBoard::index(action.from);
    let to = BitBoard::index(action.to);

    let team = state.moving_team;
    let white = state.white;
    let black = state.black;

    if let Some(piece_type) = victim_index {
        state.pieces[piece_type] = state.pieces[piece_type].and_not(to);
        match team {
            Team::White => {
                state.black = black.xor(to);
            },
            Team::Black => {
                state.white = white.xor(to);
            },
        }
    }
    state.pieces[piece_index] = state.pieces[piece_index].xor(from).or(to);

    match team {
        Team::White => {
            state.white = white.xor(from).or(to);
        },
        Team::Black => {
            state.black = black.xor(from).or(to);
        },
    }

    if state.first_move.and(from.or(to)).is_set() {
        state.first_move = state.first_move.and_not(from.or(to));
    }
    state.mailbox[action.from as usize] = NO_PIECE;
    state.mailbox[action.to as usize] = action.piece;
    proof {
        let ghost first = old(state).first_move;
        if !first.and(from.or(to)).is_set() {
            assert forall|sq: int| 0 <= sq < 64 implies first.has(sq) == first.and_not(
                from.or(to),
            ).has(sq) by {
                crate::bitboard::lemma_empty_iff(first.and(from.or(to)));
                assert(!first.and(from.or(to)).has(sq));
            }
            crate::bitboard::lemma_same_squares(first, first.and_not(from.or(to)));
        }
        assert(state@.pieces =~= old(state)@.after_move(action).pieces);
        assert(state@.mailbox =~= old(state)@.after_move(action).mailbox);
        old(state)@.lemma_after_move_wf(action);
    }
}

} // verus!
