//! Counting the positions that legal play reaches in a number of plies.
use vstd::prelude::*;
use crate::chess::{ChessProcessor, chess_actions, legal_after};
use crate::game::action::{Action, ActionRecord};
use vstd::relations::sorted_by;
use vstd::seq_lib::to_multiset_build;
use crate::game::notation::{action_uci_name, texts_view};
use crate::game::order::{insert_text, text_order};
use crate::game::text::{chars_of, decimal_text, parts_view, push_decimal, push_text, text_of};
use crate::game::{Board, BoardView, Game};

verus! {

/// The number of ways to play `depth` plies from the position, the first of
/// them one of `actions`: for each of them that is legal, the number of ways
/// to play the plies that are left from the position that it leads to.
pub open spec fn perft_over(
    game: &Game,
    position: BoardView,
    actions: Seq<Action>,
    depth: nat,
) -> nat
    decreases depth, 0nat, actions.len(),
{
    if actions.len() == 0 || depth == 0 {
        0
    } else {
        perft_over(game, position, actions.drop_last(), depth) + if legal_after(
            game,
            position,
            actions.last(),
        ) {
            spec_perft(
                game,
                position.played(actions.last()),
                Some(ActionRecord::Action(actions.last())),
                (depth - 1) as nat,
            )
        } else {
            0
        }
    }
}

/// The number of ways to play `depth` plies of legal moves from the
/// position; one for no ply.
pub open spec fn spec_perft(
    game: &Game,
    position: BoardView,
    last: Option<ActionRecord>,
    depth: nat,
) -> nat
    decreases depth, 1nat, 0nat,
{
    if depth == 0 {
        1
    } else {
        perft_over(game, position, chess_actions(game, position, last), depth)
    }
}

/// The count as it is handed out: the number itself where it fits, else the
/// largest number that does.
pub open spec fn capped(count: nat) -> usize {
    if count <= usize::MAX {
        count as usize
    } else {
        usize::MAX
    }
}

impl<'a> Board<'a> {
    /// The number of ways to play `depth` plies of legal moves from the
    /// position, as far as it can be counted. The board is left as it was.
    pub fn perft(&mut self, depth: usize) -> (nodes: usize)
        requires
            old(self).wf(),
        ensures
            nodes == capped(
                spec_perft(old(self).game, old(self).state@, old(self).last(), depth as nat),
            ),
            final(self).state@ == old(self).state@,
            final(self).history@ == old(self).history@,
            final(self).game == old(self).game,
        decreases depth,
    {
        if depth == 0 {
            return 1;
        }
        let actions = self.actions();
        let ghost position = self.state@;
        let ghost history = self.history@;

        let mut nodes: usize = 0;
        let mut at: usize = 0;
        while at < actions.len()
            invariant
                at <= actions@.len(),
                depth > 0,
                self.game == old(self).game,
                self.wf(),
                self.state@ == position,
                self.history@ == history,
                position.valid_actions(actions@),
                nodes == capped(
                    perft_over(self.game, position, actions@.take(at as int), depth as nat),
                ),
            decreases actions@.len() - at,
        {
            let action = actions[at];
            let state = self.play(action);
            let is_legal = ChessProcessor.is_legal(self);
            proof {
                assert(actions@.take(at + 1).drop_last() =~= actions@.take(at as int));
                assert(position.moving_team.next().next() == position.moving_team);
            }
            if !is_legal {
                self.restore(state);
            } else {
                let sub_nodes = self.perft(depth - 1);
                self.restore(state);

                nodes = nodes.saturating_add(sub_nodes);
            }
            at = at + 1;
        }
        proof {
            assert(actions@.take(at as int) =~= actions@);
        }
        nodes
    }
}

/// The lines that tell, for each of `actions` that is legal, how many ways
/// there are to play `depth` plies that start with it: the name of the
/// move, a dash, and the number.
pub open spec fn divide_over(
    game: &Game,
    position: BoardView,
    actions: Seq<Action>,
    depth: nat,
) -> Seq<Seq<char>>
    decreases actions.len(),
{
    if actions.len() == 0 || depth == 0 {
        Seq::empty()
    } else {
        divide_over(game, position, actions.drop_last(), depth) + if legal_after(
            game,
            position,
            actions.last(),
        ) {
            seq![
                action_uci_name(position, actions.last()) + " - "@ + decimal_text(
                    capped(
                        spec_perft(
                            game,
                            position.played(actions.last()),
                            Some(ActionRecord::Action(actions.last())),
                            (depth - 1) as nat,
                        ),
                    ) as nat,
                ),
            ]
        } else {
            Seq::empty()
        }
    }
}

impl<'a> Board<'a> {
    /// The number of ways to play `depth` plies of legal moves from the
    /// position, and for each legal move a line with its name and the
    /// number of ways that start with it, the lines in the order of
    /// dictionaries. The board is left as it was.
    pub fn perft_debug(&mut self, depth: usize) -> (r: (usize, Vec<String>))
        requires
            old(self).wf(),
        ensures
            r.0 == capped(
                spec_perft(old(self).game, old(self).state@, old(self).last(), depth as nat),
            ),
            texts_view(r.1@).to_multiset() == divide_over(
                old(self).game,
                old(self).state@,
                chess_actions(old(self).game, old(self).state@, old(self).last()),
                depth as nat,
            ).to_multiset(),
            sorted_by(texts_view(r.1@), text_order()),
            final(self).state@ == old(self).state@,
            final(self).history@ == old(self).history@,
            final(self).game == old(self).game,
    {
        if depth == 0 {
            let lines: Vec<String> = Vec::new();
            proof {
                assert(texts_view(lines@) =~= Seq::<Seq<char>>::empty());
            }
            return (1, lines);
        }
        let mut rows: Vec<Vec<char>> = Vec::new();
        let actions = self.actions();
        let ghost position = self.state@;
        let ghost history = self.history@;

        let mut nodes: usize = 0;
        let mut at: usize = 0;
        proof {
            assert(parts_view(rows@) =~= divide_over(
                self.game,
                position,
                actions@.take(0),
                depth as nat,
            ));
        }
        while at < actions.len()
            invariant
                at <= actions@.len(),
                depth > 0,
                self.game == old(self).game,
                self.wf(),
                self.state@ == position,
                self.history@ == history,
                position.valid_actions(actions@),
                nodes == capped(
                    perft_over(self.game, position, actions@.take(at as int), depth as nat),
                ),
                parts_view(rows@).to_multiset() == divide_over(
                    self.game,
                    position,
                    actions@.take(at as int),
                    depth as nat,
                ).to_multiset(),
                sorted_by(parts_view(rows@), text_order()),
            decreases actions@.len() - at,
        {
            let action = actions[at];
            let state = self.play(action);
            let is_legal = ChessProcessor.is_legal(self);
            let ghost listed = divide_over(
                self.game,
                position,
                actions@.take(at as int),
                depth as nat,
            );
            proof {
                assert(actions@.take(at + 1).drop_last() =~= actions@.take(at as int));
                assert(position.moving_team.next().next() == position.moving_team);
            }
            if !is_legal {
                self.restore(state);
                proof {
                    assert(listed + Seq::<Seq<char>>::empty() =~= listed);
                }
            } else {
                let sub_nodes = self.perft(depth - 1);
                self.restore(state);

                let mut line = chars_of(self.display_uci_action(action).as_str());
                push_text(&mut line, " - ");
                push_decimal(&mut line, sub_nodes as u64);
                proof {
                    assert(listed + seq![line@] =~= listed.push(line@));
                    to_multiset_build(listed, line@);
                }
                insert_text(&mut rows, line);

                nodes = nodes.saturating_add(sub_nodes);
            }
            at = at + 1;
        }
        proof {
            assert(actions@.take(at as int) =~= actions@);
        }
        let mut lines: Vec<String> = Vec::new();
        let mut done: usize = 0;
        while done < rows.len()
            invariant
                done <= rows@.len(),
                lines@.len() == done,
                forall|i: int| 0 <= i < done ==> lines@[i]@ == rows@[i]@,
            decreases rows@.len() - done,
        {
            lines.push(text_of(&rows[done]));
            done = done + 1;
        }
        proof {
            assert(texts_view(lines@) =~= parts_view(rows@));
        }
        (nodes, lines)
    }
}

} // verus!
