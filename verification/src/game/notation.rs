//! Moves as text: the name of the square left, the name of the square
//! reached, and for a promotion the letter of the new kind.
use vstd::prelude::*;
use crate::bitboard::BitBoard;
use crate::bitboard::group_bitboard_has;
use crate::bitboard::lemma_meets_index;
use crate::chess::fen::piece_letter;
use crate::chess::{KING, PAWN};
use crate::game::action::{Action, index_to_square, square_name};
use crate::game::text::{chars_of, text_of};
use crate::game::{Board, BoardView, PIECE_KINDS};

verus! {

broadcast use group_bitboard_has;

/// The names of two squares, one after the other.
pub open spec fn move_name(from: u16, to: u16) -> Seq<char> {
    square_name(from) + square_name(to)
}

/// Whether the move goes to a square that the moving team holds, as the
/// king does when it castles, and the king has two squares to go.
pub open spec fn names_castling(position: BoardView, action: Action) -> bool {
    action.to < 64 && position.team_to_move().has(action.to as int) && (action.to > action.from
        || action.from >= 2)
}

/// The square on which the king lands when it castles.
pub open spec fn king_landing(action: Action) -> u16 {
    if action.to > action.from {
        (action.from + 2) as u16
    } else {
        (action.from - 2) as u16
    }
}

/// The names of a king's move: from the king's square to the square that
/// the move gives; and, where the king castles, also from the king's square
/// to the square on which it lands.
pub open spec fn king_names(position: BoardView, action: Action) -> Seq<Seq<char>> {
    if names_castling(position, action) {
        seq![move_name(action.from, action.to), move_name(action.from, king_landing(action))]
    } else {
        seq![move_name(action.from, action.to)]
    }
}

/// The name of a king's move for the protocol: where the king castles, from
/// its square to the square on which it lands.
pub open spec fn king_uci_name(position: BoardView, action: Action) -> Seq<char> {
    if names_castling(position, action) {
        move_name(action.from, king_landing(action))
    } else {
        move_name(action.from, action.to)
    }
}

/// The name of a pawn's move: the two squares, and for a promotion the
/// small letter of the kind that the pawn turns into.
pub open spec fn pawn_name(action: Action) -> Seq<char> {
    if action.info > 1 && action.info - 2 < PIECE_KINDS {
        move_name(action.from, action.to).push(piece_letter(action.info - 2))
    } else {
        move_name(action.from, action.to)
    }
}

/// The names by which a move is known in a position, by the kind of the
/// piece on the square left.
pub open spec fn action_names(position: BoardView, action: Action) -> Seq<Seq<char>> {
    if position.piece_at(action.from) == Some(KING) {
        king_names(position, action)
    } else if position.piece_at(action.from) == Some(PAWN) {
        seq![pawn_name(action)]
    } else {
        seq![move_name(action.from, action.to)]
    }
}

/// The name by which the protocol knows a move in a position.
pub open spec fn action_uci_name(position: BoardView, action: Action) -> Seq<char> {
    if position.piece_at(action.from) == Some(KING) {
        king_uci_name(position, action)
    } else {
        action_names(position, action)[0]
    }
}

/// The views of the texts.
pub open spec fn texts_view(texts: Seq<String>) -> Seq<Seq<char>> {
    Seq::new(texts.len(), |i: int| texts[i]@)
}

/// Whether one of `names` is `text`.
pub open spec fn names_hold(names: Seq<Seq<char>>, text: Seq<char>) -> bool {
    exists|i: int| 0 <= i < names.len() && names[i] == text
}

/// The first of `actions` that is known by the name `text`, if one is.
pub open spec fn found_action(position: BoardView, actions: Seq<Action>, text: Seq<char>)
    -> Option<Action>
    decreases actions.len(),
{
    if actions.len() == 0 {
        None
    } else if names_hold(action_names(position, actions[0]), text) {
        Some(actions[0])
    } else {
        found_action(position, actions.skip(1), text)
    }
}

/// The names of two squares, one after the other.
pub fn name_move(from: u16, to: u16) -> (name: String)
    ensures
        name@ == move_name(from, to),
{
    let mut name = chars_of(index_to_square(from).as_str());
    let mut second = chars_of(index_to_square(to).as_str());
    name.append(&mut second);
    text_of(&name)
}

/// Whether the move names a square of the moving team as the square to go
/// to, and the king has two squares to go.
pub fn is_castling_name(board: &Board, action: Action) -> (r: bool)
    ensures
        r == names_castling(board.state@, action),
{
    if action.to >= 64 {
        return false;
    }
    proof {
        lemma_meets_index(board.state@.team_to_move(), action.to);
    }
    board.state.team_to_move().and(BitBoard::index(action.to)).is_set() && (action.to
        > action.from || action.from >= 2)
}

/// Whether the two texts hold the same characters.
pub fn same_text(a: &str, b: &str) -> (r: bool)
    ensures
        r == (a@ == b@),
{
    let first = chars_of(a);
    let second = chars_of(b);
    if first.len() != second.len() {
        return false;
    }
    let mut at: usize = 0;
    while at < first.len()
        invariant
            at <= first@.len(),
            first@.len() == second@.len(),
            first@ == a@,
            second@ == b@,
            forall|i: int| 0 <= i < at ==> first@[i] == second@[i],
        decreases first@.len() - at,
    {
        if first[at] != second[at] {
            return false;
        }
        at = at + 1;
    }
    proof {
        assert(first@ =~= second@);
    }
    true
}

/// Whether one of `names` is `text`.
pub fn holds_name(names: &Vec<String>, text: &str) -> (r: bool)
    ensures
        r == names_hold(texts_view(names@), text@),
{
    let mut at: usize = 0;
    while at < names.len()
        invariant
            at <= names@.len(),
            forall|i: int| 0 <= i < at ==> texts_view(names@)[i] != text@,
        decreases names@.len() - at,
    {
        if same_text(names[at].as_str(), text) {
            proof {
                assert(texts_view(names@)[at as int] == text@);
            }
            return true;
        }
        at = at + 1;
    }
    false
}

/// The small letter of a kind of piece.
pub fn letter_of(kind: u8) -> (c: char)
    ensures
        c == piece_letter(kind as int),
{
    if kind == 0 {
        'p'
    } else if kind == 1 {
        'n'
    } else if kind == 2 {
        'b'
    } else if kind == 3 {
        'r'
    } else if kind == 4 {
        'q'
    } else {
        'k'
    }
}

impl<'a> Board<'a> {
    /// The names by which a move is known on the board.
    pub fn display_action(&self, action: Action) -> (names: Vec<String>)
        ensures
            texts_view(names@) == action_names(self.state@, action),
    {
        let kind = if action.from < 64 {
            self.piece_at(action.from)
        } else {
            None
        };
        match kind {
            Some(piece_index) => {
                if piece_index == KING {
                    crate::chess::pieces::king::King.display_action(self, action)
                } else if piece_index == PAWN {
                    crate::chess::pieces::pawn::PawnRules.display_action(self, action)
                } else {
                    let mut names: Vec<String> = Vec::new();
                    names.push(name_move(action.from, action.to));
                    proof {
                        assert(texts_view(names@) =~= seq![move_name(action.from, action.to)]);
                    }
                    names
                }
            },
            None => {
                let mut names: Vec<String> = Vec::new();
                names.push(name_move(action.from, action.to));
                proof {
                    assert(texts_view(names@) =~= seq![move_name(action.from, action.to)]);
                }
                names
            },
        }
    }

    /// The name by which the protocol knows a move on the board.
    pub fn display_uci_action(&self, action: Action) -> (name: String)
        ensures
            name@ == action_uci_name(self.state@, action),
    {
        let kind = if action.from < 64 {
            self.piece_at(action.from)
        } else {
            None
        };
        if kind == Some(KING) {
            crate::chess::pieces::king::King.display_uci_action(self, action)
        } else {
            let names = self.display_action(action);
            proof {
                assert(texts_view(names@).len() == names@.len());
                assert(action_names(self.state@, action).len() >= 1);
                assert(texts_view(names@)[0] == names[0]@);
            }
            names[0].clone()
        }
    }

    /// The first move of the team to move that is known by the name
    /// `action`, if there is one.
    pub fn find_action(&self, action: &str) -> (r: Option<Action>)
        requires
            self.wf(),
        ensures
            r == found_action(
                self.state@,
                crate::chess::chess_actions(self.game, self.state@, self.last()),
                action@,
            ),
            r matches Some(found) ==> self.state@.valid_action(found),
    {
        let actions = self.actions();
        let mut at: usize = 0;
        proof {
            assert(actions@.skip(0) =~= actions@);
        }
        while at < actions.len()
            invariant
                at <= actions@.len(),
                self.state@.valid_actions(actions@),
                actions@ == crate::chess::chess_actions(self.game, self.state@, self.last()),
                found_action(self.state@, actions@, action@) == found_action(
                    self.state@,
                    actions@.skip(at as int),
                    action@,
                ),
            decreases actions@.len() - at,
        {
            let names = self.display_action(actions[at]);
            proof {
                assert(actions@.skip(at as int)[0] == actions@[at as int]);
                assert(actions@.skip(at as int).skip(1) =~= actions@.skip(at + 1));
            }
            if holds_name(&names, action) {
                return Some(actions[at]);
            }
            at = at + 1;
        }
        None
    }

    /// Plays the first move of the team to move that is known by the name
    /// `action`, and hands back the position as it was; does nothing where
    /// no move is known by that name.
    pub fn play_action(&mut self, action: &str) -> (r: Option<crate::game::BoardState>)
        requires
            old(self).wf(),
        ensures
            final(self).game == old(self).game,
            final(self).state@.wf(),
            match found_action(
                old(self).state@,
                crate::chess::chess_actions(old(self).game, old(self).state@, old(self).last()),
                action@,
            ) {
                Some(found) => r == Some(old(self).state) && final(self)@ == old(self)@.played(
                    found,
                ),
                None => r.is_none() && final(self)@ == old(self)@,
            },
    {
        match self.find_action(action) {
            Some(found) => Some(self.play(found)),
            None => None,
        }
    }
}

} // verus!
