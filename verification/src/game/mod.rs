//! The position of a game, and the board that plays moves on it.
pub mod action;
pub mod load;
pub mod notation;
pub mod order;
pub mod perft;
pub mod piece;
pub mod piece_map;
pub mod random;
pub mod rules;
pub mod suite;
pub mod text;
pub mod zobrist;

use vstd::prelude::*;
use crate::bitboard::{BitBoard, Bounds, Edges};
use crate::chess::attack::checked;
use crate::chess::fen::{en_passant_record, load_error, loaded};
use crate::chess::moves::{chess_move, legal_move};
use crate::game::text::split;
use crate::game::load::LoadError;
use crate::chess::{ChessProcessor, chess_actions, legal_actions, legal_among,
    spec_attacks, spec_game_state};
use crate::game::action::{Action, ActionRecord};
use crate::bitboard::group_bitboard_has;
use crate::bitboard::lemma_same_squares;

verus! {

broadcast use group_bitboard_has;

/// How many kinds of pieces a position tells apart.
pub const PIECE_KINDS: usize = 6;

/// The mailbox entry of a square on which nothing stands.
pub const NO_PIECE: u8 = 255;

/// The two sides of a game.
#[derive(Debug, Copy, Clone, PartialEq, Eq, Structural)]
pub enum Team {
    White,
    Black,
}

/// How a game stands: won by a team, drawn, or going on.
#[derive(Debug, Copy, Clone, PartialEq, Eq, Structural)]
pub enum GameState {
    Win(Team),
    Draw,
    Ongoing,
}

impl Team {
    /// The other team.
    pub open spec fn spec_next(self) -> Team {
        match self {
            Team::White => Team::Black,
            Team::Black => Team::White,
        }
    }

    /// The other team.
    #[verifier::when_used_as_spec(spec_next)]
    pub fn next(self) -> (t: Team)
        ensures
            t == self.spec_next(),
    {
        match self {
            Team::White => Team::Black,
            Team::Black => Team::White,
        }
    }

    /// The number of the team: 0 for white, 1 for black.
    pub open spec fn spec_index(self) -> usize {
        match self {
            Team::White => 0,
            Team::Black => 1,
        }
    }

    /// The number of the team: 0 for white, 1 for black.
    #[verifier::when_used_as_spec(spec_index)]
    pub fn index(self) -> (i: usize)
        ensures
            i == self.spec_index(),
    {
        match self {
            Team::White => 0,
            Team::Black => 1,
        }
    }
}

/// A position: who is to move, the squares of each team and of each kind of
/// piece, the squares whose piece has not moved yet, and for each square the
/// kind of the piece on it.
#[derive(Clone, Copy, Debug)]
pub struct BoardState {
    pub moving_team: Team,
    pub first_move: BitBoard,
    pub white: BitBoard,
    pub black: BitBoard,
    pub pieces: [BitBoard; 6],
    pub mailbox: [u8; 64],
}

/// A position as a mathematical value.
pub struct BoardView {
    pub moving_team: Team,
    pub first_move: BitBoard,
    pub white: BitBoard,
    pub black: BitBoard,
    pub pieces: Seq<BitBoard>,
    pub mailbox: Seq<u8>,
}

impl View for BoardState {
    type V = BoardView;

    open spec fn view(&self) -> BoardView {
        BoardView {
            moving_team: self.moving_team,
            first_move: self.first_move,
            white: self.white,
            black: self.black,
            pieces: self.pieces@,
            mailbox: self.mailbox@,
        }
    }
}

impl BoardView {
    /// The position without pieces, white to move.
    pub open spec fn empty() -> BoardView {
        BoardView {
            moving_team: Team::White,
            first_move: BitBoard::empty(),
            white: BitBoard::empty(),
            black: BitBoard::empty(),
            pieces: Seq::new(PIECE_KINDS as nat, |k: int| BitBoard::empty()),
            mailbox: Seq::new(64, |sq: int| NO_PIECE),
        }
    }

    /// The squares of one team.
    pub open spec fn team(self, team: Team) -> BitBoard {
        match team {
            Team::White => self.white,
            Team::Black => self.black,
        }
    }

    /// The squares of the team that is to move.
    pub open spec fn team_to_move(self) -> BitBoard {
        self.team(self.moving_team)
    }

    /// The squares of the team that is not to move.
    pub open spec fn opposite_team(self) -> BitBoard {
        self.team(self.moving_team.next())
    }

    /// The squares on which a piece stands.
    pub open spec fn occupied(self) -> BitBoard {
        self.white.or(self.black)
    }

    /// The squares on which a piece of any kind stands, by the vectors of
    /// the kinds.
    pub open spec fn all_pieces(self) -> BitBoard {
        self.pieces[0].or(self.pieces[1]).or(self.pieces[2]).or(self.pieces[3]).or(
            self.pieces[4],
        ).or(self.pieces[5])
    }

    /// The kind of the piece on a square, if one stands there.
    pub open spec fn piece_at(self, square: u16) -> Option<usize> {
        if square < 64 && self.mailbox[square as int] < PIECE_KINDS {
            Some(self.mailbox[square as int] as usize)
        } else {
            None
        }
    }

    /// Square `sq` is held by at most one team, and the mailbox names the
    /// kind of its piece exactly where the vector of that kind has it.
    pub open spec fn square_ok(self, sq: int) -> bool {
        let kind = self.mailbox[sq];
        &&& !(self.white.has(sq) && self.black.has(sq))
        &&& (kind == NO_PIECE || kind < PIECE_KINDS)
        &&& (self.white.has(sq) || self.black.has(sq)) == (kind != NO_PIECE)
        &&& forall|k: int| 0 <= k < PIECE_KINDS ==> #[trigger] self.pieces[k].has(sq) == (kind == k)
    }

    /// What holds of every position: the teams share no square, a square has
    /// a piece of some kind exactly if a team holds it, and the mailbox
    /// agrees with the vectors of the kinds.
    pub open spec fn wf(self) -> bool {
        &&& self.pieces.len() == PIECE_KINDS
        &&& self.mailbox.len() == 64
        &&& forall|sq: int| 0 <= sq < 64 ==> #[trigger] self.square_ok(sq)
    }

    /// In a position that is well formed the teams are disjoint and their
    /// union is the union of the vectors of all kinds.
    pub proof fn lemma_wf_vectors(self)
        requires
            self.wf(),
        ensures
            self.white.and(self.black) == BitBoard::empty(),
            self.all_pieces() == self.white.or(self.black),
            forall|j: int, k: int|
                0 <= j < k < PIECE_KINDS ==> self.pieces[j].and(self.pieces[k])
                    == BitBoard::empty(),
    {
        assert forall|sq: int| 0 <= sq < 64 implies self.white.and(self.black).has(sq)
            == BitBoard::empty().has(sq) by {
            assert(self.square_ok(sq));
        }
        lemma_same_squares(self.white.and(self.black), BitBoard::empty());
        assert forall|sq: int| 0 <= sq < 64 implies self.all_pieces().has(sq) == self.white.or(
            self.black,
        ).has(sq) by {
            assert(self.square_ok(sq));
            assert(self.pieces[0].has(sq) == (self.mailbox[sq] == 0));
            assert(self.pieces[1].has(sq) == (self.mailbox[sq] == 1));
            assert(self.pieces[2].has(sq) == (self.mailbox[sq] == 2));
            assert(self.pieces[3].has(sq) == (self.mailbox[sq] == 3));
            assert(self.pieces[4].has(sq) == (self.mailbox[sq] == 4));
            assert(self.pieces[5].has(sq) == (self.mailbox[sq] == 5));
        }
        lemma_same_squares(self.all_pieces(), self.white.or(self.black));
        assert forall|j: int, k: int| 0 <= j < k < PIECE_KINDS implies self.pieces[j].and(
            self.pieces[k],
        ) == BitBoard::empty() by {
            assert forall|sq: int| 0 <= sq < 64 implies self.pieces[j].and(self.pieces[k]).has(sq)
                == BitBoard::empty().has(sq) by {
                assert(self.square_ok(sq));
                assert(self.pieces[j].has(sq) == (self.mailbox[sq] == j));
                assert(self.pieces[k].has(sq) == (self.mailbox[sq] == k));
            }
            lemma_same_squares(self.pieces[j].and(self.pieces[k]), BitBoard::empty());
        }
    }
}

impl BoardState {
    /// The position without pieces, white to move.
    pub fn new() -> (s: Self)
        ensures
            s@ == BoardView::empty(),
            s@.wf(),
    {
        let s = Self {
            moving_team: Team::White,
            black: BitBoard::empty(),
            white: BitBoard::empty(),
            first_move: BitBoard::empty(),
            pieces: [BitBoard(0);6],
            mailbox: [255u8;64],
        };
        proof {
            assert forall|sq: int| 0 <= sq < 64 implies #[trigger] s@.square_ok(sq) by {
                assert forall|k: int| 0 <= k < PIECE_KINDS implies #[trigger] s@.pieces[k].has(sq)
                    == (s@.mailbox[sq] == k) by {
                    assert(s.pieces[k] == BitBoard::empty());
                }
            }
            assert(s@.pieces =~= BoardView::empty().pieces);
            assert(s@.mailbox =~= BoardView::empty().mailbox);
        }
        s
    }

    /// The squares of one team.
    pub fn team(&self, team: Team) -> (r: BitBoard)
        ensures
            r == self@.team(team),
    {
        match team {
            Team::White => self.white,
            Team::Black => self.black,
        }
    }

    /// The squares of the team that is to move.
    pub fn team_to_move(&self) -> (r: BitBoard)
        ensures
            r == self@.team_to_move(),
    {
        self.team(self.moving_team)
    }

    /// The squares of the team that is not to move.
    pub fn opposite_team(&self) -> (r: BitBoard)
        ensures
            r == self@.opposite_team(),
    {
        self.team(self.moving_team.next())
    }

    /// The kind of the piece on a square, if one stands there.
    pub fn piece_at(&self, square: u16) -> (r: Option<usize>)
        requires
            square < 64,
        ensures
            r == self@.piece_at(square),
    {
        let kind = self.mailbox[square as usize];
        if (kind as usize) < PIECE_KINDS {
            Some(kind as usize)
        } else {
            None
        }
    }
}

/// The squares that a piece reaches, one board per direction; a piece that
/// leaps has one direction.
pub type AttackDirections = Vec<BitBoard>;

/// Boards of squares reached, found by two indices.
pub type AttackLookup = Vec<AttackDirections>;

/// For each kind of piece its boards of squares reached.
pub type PieceLookup = Vec<AttackLookup>;

/// How the blockers round one square are turned into an index of that
/// square's table of moves: and-ed with `mask`, multiplied by `magic`,
/// shifted right by `shift`.
#[derive(Clone, Copy, Debug)]
pub struct MagicEntry {
    pub mask: BitBoard,
    pub magic: u64,
    pub shift: usize,
}

/// For each square of one kind of piece its magic entry.
pub type PieceMagics = Vec<MagicEntry>;

/// What is worked out once for a game: the shape of the board, its edges to
/// depth one and two, and the tables of the pieces.
pub struct Game {
    pub edges: Vec<Edges>,
    pub bounds: Bounds,
    pub default_pos: String,
    /// Per kind: for a leaper one list with the squares reached from each
    /// square; for a slider one list per ray and one for all rays together.
    pub lookup: PieceLookup,
    /// Per kind and square the magic entry; empty for kinds without.
    pub magics: Vec<PieceMagics>,
    /// Per kind and square the table of moves by magic index; empty for
    /// kinds without.
    pub tables: Vec<AttackLookup>,
}

/// A kind of game that can be set up.
pub trait GameTemplate {
    /// What holds of a game of this kind once it is set up.
    spec fn ready(game: &Game) -> bool;

    /// Sets the game up; what is drawn at random is drawn from a generator
    /// that starts from `seed`. Nothing comes back where the set-up gives
    /// up.
    fn create(seed: u64) -> (r: Option<Game>)
        ensures
            r matches Some(game) ==> Self::ready(&game),
    ;
}

/// A game in play: the position, and the plies that led to it.
pub struct Board<'a> {
    pub game: &'a Game,
    pub state: BoardState,
    pub history: Vec<ActionRecord>,
}

/// A game in play as a mathematical value: the position, and the plies
/// that led to it.
pub struct BoardModel {
    pub state: BoardView,
    pub history: Seq<ActionRecord>,
}

impl<'a> View for Board<'a> {
    type V = BoardModel;

    open spec fn view(&self) -> BoardModel {
        BoardModel { state: self.state@, history: self.history@ }
    }
}

impl BoardModel {
    /// The last ply, if there was one.
    pub open spec fn last(self) -> Option<ActionRecord> {
        if self.history.len() > 0 {
            Some(self.history.last())
        } else {
            None
        }
    }

    /// The game after a move: the pieces moved, the other team is to move,
    /// and the history holds the move.
    pub open spec fn played(self, action: Action) -> BoardModel {
        BoardModel {
            state: self.state.played(action),
            history: self.history.push(ActionRecord::Action(action)),
        }
    }

    /// The game after the move was passed: the other team is to move, and
    /// the history holds a ply without a move.
    pub open spec fn passed(self) -> BoardModel {
        BoardModel { state: self.state.passed(), history: self.history.push(ActionRecord::Null()) }
    }

    /// The game after the last ply was taken back: the position is `prior`
    /// and the history has lost its last entry, if it had one.
    pub open spec fn restored(self, prior: BoardView) -> BoardModel {
        BoardModel {
            state: prior,
            history: if self.history.len() > 0 {
                self.history.drop_last()
            } else {
                self.history
            },
        }
    }

    /// The game after the moves were played one after the other.
    pub open spec fn played_all(self, actions: Seq<Action>) -> BoardModel
        decreases actions.len(),
    {
        if actions.len() == 0 {
            self
        } else {
            self.played_all(actions.drop_last()).played(actions.last())
        }
    }

    /// Each of the moves is one that the position allows in which it is
    /// played.
    pub open spec fn playable(self, actions: Seq<Action>) -> bool
        decreases actions.len(),
    {
        actions.len() == 0 || (self.playable(actions.drop_last()) && self.played_all(
            actions.drop_last(),
        ).state.valid_action(actions.last()))
    }
}

/// A move that is played and then taken back, with the position that `play`
/// handed out, leaves the game as it was: the vectors of the kinds and of
/// the teams, the squares that count as unmoved, the mailbox, the side to
/// move and the history.
pub proof fn lemma_play_restore(board: BoardModel, action: Action)
    requires
        board.state.wf(),
        board.state.valid_action(action),
    ensures
        board.played(action).restored(board.state) == board,
        board.played(action).restored(board.state).state.pieces == board.state.pieces,
        board.played(action).restored(board.state).state.white == board.state.white,
        board.played(action).restored(board.state).state.black == board.state.black,
        board.played(action).restored(board.state).state.first_move == board.state.first_move,
        board.played(action).restored(board.state).state.mailbox == board.state.mailbox,
{
    assert(board.history.push(ActionRecord::Action(action)).drop_last() =~= board.history);
}

/// A move that the position allows leaves the teams disjoint and their
/// union the union of the vectors of all kinds.
pub proof fn lemma_play_keeps_occupancy(board: BoardModel, action: Action)
    requires
        board.state.wf(),
        board.state.valid_action(action),
    ensures
        board.played(action).state.wf(),
        board.played(action).state.white.and(board.played(action).state.black)
            == BitBoard::empty(),
        board.played(action).state.all_pieces() == board.played(action).state.white.or(
            board.played(action).state.black,
        ),
{
    board.state.lemma_played_wf(action);
    board.played(action).state.lemma_wf_vectors();
}

/// In every position that is reached from a well-formed one by moves that
/// the positions on the way allow, the teams are disjoint and their union
/// is the union of the vectors of all kinds.
pub proof fn lemma_reachable_occupancy(board: BoardModel, actions: Seq<Action>)
    requires
        board.state.wf(),
        board.playable(actions),
    ensures
        board.played_all(actions).state.wf(),
        board.played_all(actions).state.white.and(board.played_all(actions).state.black)
            == BitBoard::empty(),
        board.played_all(actions).state.all_pieces() == board.played_all(actions).state.white.or(
            board.played_all(actions).state.black,
        ),
    decreases actions.len(),
{
    if actions.len() > 0 {
        lemma_reachable_occupancy(board, actions.drop_last());
        board.played_all(actions.drop_last()).state.lemma_played_wf(actions.last());
    }
    board.played_all(actions).state.lemma_wf_vectors();
}

impl Game {
    /// The board is the 8 by 8 board, with its edges to depth one and two.
    pub open spec fn board_ok(&self) -> bool {
        &&& self.bounds.rows == 8
        &&& self.bounds.cols == 8
        &&& self.edges@.len() == 2
        &&& self.edges[0].wf(self.bounds, 1)
        &&& self.edges[1].wf(self.bounds, 2)
    }

    /// A board in the empty position.
    pub fn init(&self) -> (board: Board<'_>)
        ensures
            board.game == self,
            board.state@.wf(),
            board.state@ == BoardView::empty(),
            board.history@.len() == 0,
    {
        Board::new(self)
    }

    /// A board in the position from which the game starts, or why the text
    /// of that position is turned down.
    pub fn default(&self) -> (r: Result<Board<'_>, LoadError>)
        requires
            self.board_ok(),
        ensures
            match r {
                Ok(board) => {
                    &&& board.game == self
                    &&& board.state@.wf()
                    &&& loaded(BoardView::empty(), self.default_pos@, self.bounds, board.state@)
                    &&& board.history@ == match en_passant_record(
                        split(self.default_pos@, ' ')[3],
                        board.state@.moving_team,
                        self.bounds,
                    ) {
                        Some(record) => seq![record],
                        None => Seq::empty(),
                    }
                },
                Err(e) => load_error(BoardView::empty(), self.default_pos@, self.bounds) == Some(e),
            },
    {
        self.load(self.default_pos.as_str())
    }

    /// A board in the position that the text gives, or why the text is
    /// turned down.
    pub fn load(&self, pos: &str) -> (r: Result<Board<'_>, LoadError>)
        requires
            self.board_ok(),
        ensures
            match r {
                Ok(board) => {
                    &&& board.game == self
                    &&& board.state@.wf()
                    &&& loaded(BoardView::empty(), pos@, self.bounds, board.state@)
                    &&& board.history@ == match en_passant_record(
                        split(pos@, ' ')[3],
                        board.state@.moving_team,
                        self.bounds,
                    ) {
                        Some(record) => seq![record],
                        None => Seq::empty(),
                    }
                },
                Err(e) => load_error(BoardView::empty(), pos@, self.bounds) == Some(e),
            },
    {
        let mut board = self.init();
        match board.load(pos) {
            Ok(()) => {
                proof {
                    assert(Seq::<ActionRecord>::empty().push(board.history@.last()) =~= seq![
                        board.history@.last(),
                    ]);
                    assert(board.history@.len() == 0 ==> board.history@ =~= Seq::empty());
                }
                Ok(board)
            },
            Err(e) => Err(e),
        }
    }
}

impl<'a> Board<'a> {
    /// A board of the game in the empty position.
    pub fn new(game: &'a Game) -> (board: Self)
        ensures
            board.game == game,
            board.state@.wf(),
            board.state@ == BoardView::empty(),
            board.history@.len() == 0,
    {
        Self { game, state: BoardState::new(), history: Vec::new() }
    }

    /// The last ply, if there was one.
    pub open spec fn last(&self) -> Option<ActionRecord> {
        if self.history@.len() > 0 {
            Some(self.history@.last())
        } else {
            None
        }
    }

    /// The kind of the piece on a square, if one stands there.
    pub fn piece_at(&self, square: u16) -> (r: Option<usize>)
        requires
            square < 64,
        ensures
            r == self.state@.piece_at(square),
    {
        self.state.piece_at(square)
    }

    /// Sets the board up from the text of a position, on top of what stands
    /// on it. Where the text is turned down the board is as it was.
    pub fn load(&mut self, pos: &str) -> (r: Result<(), LoadError>)
        requires
            old(self).state@.wf(),
            old(self).game.board_ok(),
        ensures
            final(self).game == old(self).game,
            final(self).state@.wf(),
            match r {
                Ok(()) => {
                    &&& load_error(old(self).state@, pos@, old(self).game.bounds).is_none()
                    &&& loaded(old(self).state@, pos@, old(self).game.bounds, final(self).state@)
                    &&& final(self).history@ == match en_passant_record(
                        split(pos@, ' ')[3],
                        final(self).state@.moving_team,
                        old(self).game.bounds,
                    ) {
                        Some(record) => old(self).history@.push(record),
                        None => old(self).history@,
                    }
                },
                Err(e) => {
                    &&& load_error(old(self).state@, pos@, old(self).game.bounds) == Some(e)
                    &&& final(self).state == old(self).state
                    &&& final(self).history == old(self).history
                },
            },
    {
        ChessProcessor.load(self, pos)
    }

    /// The game is set up and the position is well formed.
    pub open spec fn wf(&self) -> bool {
        self.game.chess_ok() && self.state@.wf()
    }

    /// The moves of the team to move, whether or not they leave its king
    /// attacked.
    pub fn actions(&self) -> (actions: Vec<Action>)
        requires
            self.wf(),
        ensures
            actions@ == chess_actions(self.game, self.state@, self.last()),
            self.state@.valid_actions(actions@),
            forall|a: Action|
                #![trigger actions@.contains(a)]
                actions@.contains(a) == chess_move(self.state@, self.last(), a),
            actions@.no_duplicates(),
    {
        let actions = ChessProcessor.actions(self);
        proof {
            assert forall|a: Action| #![trigger actions@.contains(a)] actions@.contains(a)
                == chess_move(self.state@, self.last(), a) by {
                self.game.lemma_chess_actions(self.state@, self.last(), a);
            }
            self.game.lemma_chess_actions_distinct(self.state@, self.last());
        }
        actions
    }

    /// The moves of the team to move that leave none of its kings attacked.
    /// The board is left as it was.
    pub fn legals(&mut self) -> (legals: Vec<Action>)
        requires
            old(self).wf(),
        ensures
            legals@ == legal_actions(old(self).game, old(self).state@, old(self).last()),
            forall|a: Action|
                #![trigger legals@.contains(a)]
                legals@.contains(a) == legal_move(old(self).state@, old(self).last(), a),
            legals@.no_duplicates(),
            final(self).state@ == old(self).state@,
            final(self).history@ == old(self).history@,
            final(self).game == old(self).game,
    {
        let actions = self.actions();
        let mut legals: Vec<Action> = Vec::with_capacity(actions.len());
        let ghost position = self.state@;
        let ghost history = self.history@;
        let mut at: usize = 0;
        while at < actions.len()
            invariant
                at <= actions@.len(),
                self.game == old(self).game,
                self.wf(),
                self.state@ == position,
                self.history@ == history,
                position.valid_actions(actions@),
                legals@ == legal_among(self.game, position, actions@.take(at as int)),
            decreases actions@.len() - at,
        {
            let action = actions[at];
            let state = self.play(action);
            let is_legal = ChessProcessor.is_legal(self);
            self.restore(state);

            if is_legal {
                legals.push(action);
            }
            proof {
                assert(actions@.take(at + 1).drop_last() =~= actions@.take(at as int));
                assert(position.moving_team.next().next() == position.moving_team);
            }
            at = at + 1;
        }
        proof {
            assert(actions@.take(at as int) =~= actions@);
            assert forall|a: Action| #![trigger legals@.contains(a)] legals@.contains(a)
                == legal_move(position, old(self).last(), a) by {
                self.game.lemma_legal_actions(position, old(self).last(), a);
            }
            self.game.lemma_legal_actions_distinct(position, old(self).last());
        }
        legals
    }

    /// What the team to move attacks, as far as `mask` is concerned.
    pub fn attacks(&self, mask: BitBoard) -> (r: BitBoard)
        requires
            self.game.chess_ok(),
        ensures
            r == spec_attacks(self.game, self.state@, mask),
    {
        ChessProcessor.attacks(self, mask)
    }

    /// How the game stands for the team to move, whose legal moves are
    /// `actions`.
    pub fn game_state(&self, actions: &[Action]) -> (r: GameState)
        requires
            self.game.chess_ok(),
        ensures
            r == spec_game_state(self.game, self.state@, actions@.len()),
            self.state@.wf() ==> r == if actions@.len() > 0 {
                GameState::Ongoing
            } else if checked(self.state@, self.state@.moving_team) {
                GameState::Win(self.state@.moving_team.next())
            } else {
                GameState::Draw
            },
    {
        proof {
            if self.state@.wf() {
                self.game.lemma_in_check(self.state@, self.state@.moving_team);
            }
        }
        ChessProcessor.game_state(self, actions)
    }

    /// Passes the move: the other team is to move, and the history keeps a
    /// ply without a move. Hands back the position as it was.
    pub fn play_null(&mut self) -> (prior: BoardState)
        requires
            old(self).state@.wf(),
        ensures
            prior == old(self).state,
            final(self)@ == old(self)@.passed(),
            final(self).state@.wf(),
            final(self).game == old(self).game,
    {
        let state = self.state;

        self.state.moving_team = self.state.moving_team.next();
        self.history.push(ActionRecord::Null());
        proof {
            old(self).state@.lemma_passed_wf();
        }
        state
    }

    /// Plays a move: the pieces move, the other team is to move, and the
    /// history keeps the move. Hands back the position as it was, with
    /// which `restore` takes the move back.
    pub fn play(&mut self, action: Action) -> (prior: BoardState)
        requires
            old(self).state@.wf(),
            old(self).state@.valid_action(action),
        ensures
            prior == old(self).state,
            final(self)@ == old(self)@.played(action),
            final(self).state@.wf(),
            final(self).state@.white.and(final(self).state@.black) == BitBoard::empty(),
            final(self).state@.all_pieces() == final(self).state@.white.or(
                final(self).state@.black,
            ),
            final(self).game == old(self).game,
    {
        let state = self.state;

        ChessProcessor.play(self, action);

        self.state.moving_team = state.moving_team.next();
        self.history.push(ActionRecord::Action(action));
        proof {
            old(self).state@.lemma_played_wf(action);
            self.state@.lemma_wf_vectors();
        }
        state
    }

    /// Takes back the last ply: the position is again `state`, field by
    /// field, and the history loses its last entry.
    pub fn restore(&mut self, state: BoardState)
        ensures
            final(self).state == state,
            final(self)@ == old(self)@.restored(state@),
            final(self).game == old(self).game,
    {
        self.state = state;
        self.history.pop();
    }
}

} // verus!
