//! Reading a position from its text and writing it back: the pieces row by
//! row, the side to move, the castling rights, the en passant square, and
//! two counters.
use vstd::prelude::*;
use crate::bitboard::{BitBoard, Bounds, in_left_edge, in_right_edge, in_bottom_edge, in_top_edge};
use crate::bitboard::group_bitboard_has;
use crate::chess::pieces::pawn::PawnRules;
use crate::chess::{ChessProcessor, PAWN, ROOK};
use crate::chess::rights::{CastlingRights, castling_rights, extract_castling_rights};
use crate::game::action::{Action, ActionRecord, index_to_square, named_square, square_name,
    square_of};
use crate::game::load::{LoadError, kinds_ok, placed};
use crate::game::piece_map::{Letters, letters, new_letters, set_letter};
use crate::game::text::{chars_of, contains_char, digit_char, has_char, parts_view, split,
    split_at, text_of};
use crate::game::{Board, BoardView, Team};

verus! {

broadcast use group_bitboard_has;

/// The letters of the six kinds of pieces.
pub open spec fn chess_letters() -> Map<char, usize> {
    Map::<char, usize>::empty().insert('p', 0).insert('n', 1).insert('b', 2).insert('r', 3).insert(
        'q',
        4,
    ).insert('k', 5)
}

/// The team that the second field names: white for `w`, else black.
pub open spec fn side_of(field: Seq<char>) -> Team {
    if field =~= seq!['w'] {
        Team::White
    } else {
        Team::Black
    }
}

/// Whether the rook on `sq`, if one stands there, has lost the right to
/// castle: the field of castling rights lacks the letter of its team and
/// its half of the board, `K` and `Q` for white, `k` and `q` for black,
/// the king's side being the right half.
pub open spec fn rook_barred(position: BoardView, rights: Seq<char>, bounds: Bounds, sq: int)
    -> bool {
    let half = (bounds.cols / 2) as u16;
    let right = in_right_edge(bounds, half, sq);
    let left = in_left_edge(bounds, half, sq);
    position.pieces[ROOK as int].has(sq) && {
        ||| (position.white.has(sq) && right && !has_char(rights, 'K'))
        ||| (position.white.has(sq) && left && !has_char(rights, 'Q'))
        ||| (position.black.has(sq) && right && !has_char(rights, 'k'))
        ||| (position.black.has(sq) && left && !has_char(rights, 'q'))
    }
}

/// Whether the pawn on `sq`, if one stands there, is off the row on which
/// the pawns of its team start: the second row from the bottom for white,
/// the second from the top for black.
pub open spec fn pawn_advanced(position: BoardView, bounds: Bounds, sq: int) -> bool {
    position.pieces[PAWN as int].has(sq) && {
        ||| (position.white.has(sq) && !in_bottom_edge(bounds, 1, sq - 8))
        ||| (position.black.has(sq) && !in_top_edge(bounds, 1, sq + 8))
    }
}

/// The ply that the en passant field stands for: the double step of a pawn
/// of the team that is not to move over the square that the field names.
pub open spec fn en_passant_record(field: Seq<char>, to_move: Team, bounds: Bounds) -> Option<
    ActionRecord,
> {
    match named_square(field) {
        Some(square) => {
            let (back, forward) = match to_move {
                Team::White => (square + bounds.cols, square - bounds.cols),
                Team::Black => (square - bounds.cols, square + bounds.cols),
            };
            Some(
                ActionRecord::Action(
                    Action { from: back as u16, to: forward as u16, piece: PAWN as u8, info: 1 },
                ),
            )
        },
        None => None,
    }
}

/// Why the text is turned down, if it is: it has fewer than four fields;
/// or its en passant square has no row on the board before or behind it; or
/// its pieces cannot be placed.
pub open spec fn load_error(position: BoardView, text: Seq<char>, bounds: Bounds) -> Option<
    LoadError,
> {
    let fields = split(text, ' ');
    if fields.len() < 4 {
        Some(LoadError::MissingField)
    } else if named_square(fields[3]) matches Some(square) && (square < bounds.cols || square
        + bounds.cols >= 64) {
        Some(LoadError::BadEnPassant)
    } else {
        match placed(position, fields[0], chess_letters(), bounds) {
            Err(e) => Some(e),
            Ok(_) => None,
        }
    }
}

/// What loading `text` makes of the position `before`: the pieces are
/// placed as the first field says and the second field's team is to move;
/// a square counts as unmoved where a piece was placed on it that is
/// neither a rook without its castling right nor a pawn off its starting
/// row.
pub open spec fn loaded(before: BoardView, text: Seq<char>, bounds: Bounds, after: BoardView)
    -> bool {
    let fields = split(text, ' ');
    &&& fields.len() >= 4
    &&& placed(before, fields[0], chess_letters(), bounds) matches Ok(set)
    &&& after.white == set.white
    &&& after.black == set.black
    &&& after.pieces == set.pieces
    &&& after.mailbox == set.mailbox
    &&& after.moving_team == side_of(fields[1])
    &&& forall|sq: int|
        #![trigger after.first_move.has(sq)]
        after.first_move.has(sq) == (set.first_move.has(sq) && !rook_barred(
            set,
            fields[2],
            bounds,
            sq,
        ) && !pawn_advanced(set, bounds, sq))
}

impl ChessProcessor {
    /// The letters of the six kinds of pieces.
    pub fn piece_map(&self) -> (map: Letters)
        ensures
            letters(map) == chess_letters(),
            kinds_ok(letters(map)),
    {
        let mut piece_map = new_letters();
        set_letter(&mut piece_map, 'p', 0);
        set_letter(&mut piece_map, 'n', 1);
        set_letter(&mut piece_map, 'b', 2);
        set_letter(&mut piece_map, 'r', 3);
        set_letter(&mut piece_map, 'q', 4);
        set_letter(&mut piece_map, 'k', 5);
        proof {
            assert(letters(piece_map) =~= chess_letters());
        }
        piece_map
    }

    /// Sets the board up from the text of a position, on top of what stands
    /// on it. Where the text is turned down the board is as it was.
    pub fn load(&self, board: &mut Board, pos: &str) -> (r: Result<(), LoadError>)
        requires
            old(board).state@.wf(),
            old(board).game.board_ok(),
        ensures
            final(board).game == old(board).game,
            final(board).state@.wf(),
            match r {
                Ok(()) => {
                    &&& load_error(old(board).state@, pos@, old(board).game.bounds).is_none()
                    &&& loaded(
                        old(board).state@,
                        pos@,
                        old(board).game.bounds,
                        final(board).state@,
                    )
                    &&& final(board).history@ == match en_passant_record(
                        split(pos@, ' ')[3],
                        final(board).state@.moving_team,
                        old(board).game.bounds,
                    ) {
                        Some(record) => old(board).history@.push(record),
                        None => old(board).history@,
                    }
                },
                Err(e) => {
                    &&& load_error(old(board).state@, pos@, old(board).game.bounds) == Some(e)
                    &&& final(board).state == old(board).state
                    &&& final(board).history == old(board).history
                },
            },
    {
        let text = chars_of(pos);
        let parts = split_at(&text, ' ');
        let ghost fields = split(pos@, ' ');
        let bounds = board.game.bounds;
        proof {
            assert(parts_view(parts@).len() == parts@.len());
        }
        if parts.len() < 4 {
            return Err(LoadError::MissingField);
        }
        proof {
            assert(parts_view(parts@)[0] == parts[0]@);
            assert(parts_view(parts@)[1] == parts[1]@);
            assert(parts_view(parts@)[2] == parts[2]@);
            assert(parts_view(parts@)[3] == parts[3]@);
        }
        // En Passant
        let en_passant = square_of(&parts[3]);
        match en_passant {
            Some(square) => {
                if square < bounds.cols || square + bounds.cols >= 64 {
                    return Err(LoadError::BadEnPassant);
                }
            },
            None => {},
        }

        // Piece Placement
        let piece_map = self.piece_map();
        let placing = crate::game::text::text_of(&parts[0]);
        match board.load_pieces(placing.as_str(), &piece_map) {
            Err(e) => {
                return Err(e);
            },
            Ok(()) => {},
        }
        let ghost set = board.state@;

        // Team to Move
        let side = &parts[1];
        board.state.moving_team = if side.len() == 1 && side[0] == 'w' {
            Team::White
        } else {
            Team::Black
        };
        proof {
            if side@.len() == 1 && side@[0] == 'w' {
                assert(side@ =~= seq!['w']);
            }
        }

        let left_side = BitBoard::edges_left(bounds, bounds.cols / 2);
        let right_side = BitBoard::edges_right(bounds, bounds.cols / 2);

        // Castling Rights
        let rooks = board.state.pieces[ROOK];
        if !contains_char(&parts[2], 'K') {
            board.state.first_move = board.state.first_move.and_not(
                rooks.and(board.state.white).and(right_side),
            );
        }
        if !contains_char(&parts[2], 'Q') {
            board.state.first_move = board.state.first_move.and_not(
                rooks.and(board.state.white).and(left_side),
            );
        }
        if !contains_char(&parts[2], 'k') {
            board.state.first_move = board.state.first_move.and_not(
                rooks.and(board.state.black).and(right_side),
            );
        }
        if !contains_char(&parts[2], 'q') {
            board.state.first_move = board.state.first_move.and_not(
                rooks.and(board.state.black).and(left_side),
            );
        }
        let ghost barred = board.state.first_move;
        proof {
            assert forall|sq: int|
                #![trigger barred.has(sq)]
                barred.has(sq) == (set.first_move.has(sq) && !rook_barred(
                    set,
                    fields[2],
                    bounds,
                    sq,
                )) by {}
        }

        match en_passant {
            Some(square) => {
                let width = bounds.cols;
                let (one_back, one_forward): (u16, u16) = match board.state.moving_team {
                    Team::White => (square + width, square - width),
                    Team::Black => (square - width, square + width),
                };
                board.history.push(
                    ActionRecord::Action(Action::from(one_back, one_forward, PAWN as u8).with_info(1)),
                );
            },
            None => {},
        }

        PawnRules.load(board, PAWN);
        proof {
            let after = board.state@;
            assert forall|sq: int| 0 <= sq < 64 implies #[trigger] after.square_ok(sq) by {
                assert(set.square_ok(sq));
            }
            assert forall|sq: int|
                #![trigger after.first_move.has(sq)]
                after.first_move.has(sq) == (set.first_move.has(sq) && !rook_barred(
                    set,
                    fields[2],
                    bounds,
                    sq,
                ) && !pawn_advanced(set, bounds, sq)) by {
                assert(barred.has(sq) == (set.first_move.has(sq) && !rook_barred(
                    set,
                    fields[2],
                    bounds,
                    sq,
                )));
            }
        }
        Ok(())
    }
}

/// The small letter of a kind of piece.
pub open spec fn piece_letter(kind: int) -> char {
    if kind == 0 {
        'p'
    } else if kind == 1 {
        'n'
    } else if kind == 2 {
        'b'
    } else if kind == 3 {
        'r'
    } else if kind == 4 {
        'q'
    } else {
        'k'
    }
}

/// The letter of a piece: a capital letter for a white one.
pub open spec fn piece_char(kind: int, white: bool) -> char {
    if white {
        (((piece_letter(kind) as u8) - 32) as u8) as char
    } else {
        piece_letter(kind)
    }
}

/// The text with the number of empty squares that came last, if any did.
pub open spec fn flushed(text: Seq<char>, empty: int) -> Seq<char> {
    if empty > 0 {
        text.push(digit_char(empty))
    } else {
        text
    }
}

/// The text of the first `col` squares of row `row` of the 8 by 8 board,
/// with the number of empty squares at its end that are not written yet.
pub open spec fn row_scan(position: BoardView, row: int, col: int) -> (Seq<char>, int)
    decreases col,
{
    if col <= 0 {
        (Seq::empty(), 0)
    } else {
        let (text, empty) = row_scan(position, row, col - 1);
        let idx = row * 8 + col - 1;
        match position.piece_at(idx as u16) {
            Some(kind) => (
                flushed(text, empty).push(piece_char(kind as int, position.white.has(idx))),
                0,
            ),
            None => (text, empty + 1),
        }
    }
}

/// The text of one row: its pieces by their letters, runs of empty squares
/// by their length.
pub open spec fn row_text(position: BoardView, row: int) -> Seq<char> {
    flushed(row_scan(position, row, 8).0, row_scan(position, row, 8).1)
}

/// The text of the `count` highest rows, from the top, parted by `/`.
pub open spec fn rows_text(position: BoardView, count: int) -> Seq<char>
    decreases count,
{
    if count <= 0 {
        Seq::empty()
    } else if count == 1 {
        row_text(position, 7)
    } else {
        rows_text(position, count - 1).push('/') + row_text(position, 8 - count)
    }
}

/// The text of the rights to castle: the letters of those that are left,
/// or a dash.
pub open spec fn rights_text(rights: CastlingRights) -> Seq<char> {
    let text = (if rights.white_king_side {
        seq!['K']
    } else {
        Seq::empty()
    }) + (if rights.white_queen_side {
        seq!['Q']
    } else {
        Seq::empty()
    }) + (if rights.black_king_side {
        seq!['k']
    } else {
        Seq::empty()
    }) + (if rights.black_queen_side {
        seq!['q']
    } else {
        Seq::empty()
    });
    if text.len() == 0 {
        seq!['-']
    } else {
        text
    }
}

/// The square over which the pawn went that made a double step in the last
/// ply, if the last ply was the double step of a pawn of the team that is
/// not to move.
pub open spec fn passed_square(position: BoardView, last: Option<ActionRecord>) -> Option<u16> {
    match last {
        Some(ActionRecord::Action(m)) => {
            if m.from < 64 && m.to < 64 && position.piece_at(m.to) == Some(PAWN) {
                match position.moving_team.next() {
                    Team::White => if m.to == m.from + 16 {
                        Some((m.to - 8) as u16)
                    } else {
                        None
                    },
                    Team::Black => if m.from == m.to + 16 {
                        Some((m.to + 8) as u16)
                    } else {
                        None
                    },
                }
            } else {
                None
            }
        },
        _ => None,
    }
}

/// The text of the en passant square: its name, or a dash.
pub open spec fn en_passant_text(position: BoardView, last: Option<ActionRecord>) -> Seq<char> {
    match passed_square(position, last) {
        Some(square) => square_name(square),
        None => seq!['-'],
    }
}

/// The text of a position on the 8 by 8 board: the rows from the top, the
/// side to move, the rights to castle, the en passant square, and the
/// counters 0 and 1.
pub open spec fn position_text(position: BoardView, last: Option<ActionRecord>, bounds: Bounds)
    -> Seq<char> {
    (((rows_text(position, 8).push(' ').push(side_char(position.moving_team)).push(' ')
        + rights_text(castling_rights(position, bounds))).push(' ') + en_passant_text(
        position,
        last,
    )).push(' ').push('0').push(' ').push('1'))
}

/// The letter of the team that is to move.
pub open spec fn side_char(team: Team) -> char {
    match team {
        Team::White => 'w',
        Team::Black => 'b',
    }
}

/// Adds the characters of `more` to `text`.
fn push_all(text: &mut Vec<char>, more: &Vec<char>)
    ensures
        final(text)@ == old(text)@ + more@,
{
    let mut at: usize = 0;
    while at < more.len()
        invariant
            at <= more@.len(),
            text@ == old(text)@ + more@.take(at as int),
        decreases more@.len() - at,
    {
        text.push(more[at]);
        proof {
            assert(more@.take(at + 1) =~= more@.take(at as int).push(more@[at as int]));
            assert(text@ =~= old(text)@ + more@.take(at + 1));
        }
        at = at + 1;
    }
    proof {
        assert(more@.take(at as int) =~= more@);
    }
}

/// Adds the text of one row of the board.
fn push_row(board: &Board, out: &mut Vec<char>, row: u16)
    requires
        row < 8,
        board.state@.wf(),
    ensures
        final(out)@ == old(out)@ + row_text(board.state@, row as int),
{
    let ghost position = board.state@;
    let ghost above = out@;
    let mut empty_count: u8 = 0;
    let mut col: u16 = 0;
    proof {
        assert(out@ =~= above + row_scan(position, row as int, 0).0);
    }
    while col < 8
        invariant
            col <= 8,
            row < 8,
            position == board.state@,
            position.wf(),
            empty_count <= col,
            above == old(out)@,
            out@ == above + row_scan(position, row as int, col as int).0,
            empty_count == row_scan(position, row as int, col as int).1,
        decreases 8 - col,
    {
        let idx: u16 = row * 8 + col;
        proof {
            assert(position.square_ok(idx as int));
            crate::bitboard::lemma_meets_index(board.state.white, idx);
        }
        match board.state.piece_at(idx) {
            Some(piece_index) => {
                if empty_count > 0 {
                    out.push((48u8 + empty_count) as char);
                    empty_count = 0;
                }
                let piece_char: u8 = if piece_index == 0 {
                    112u8
                } else if piece_index == 1 {
                    110u8
                } else if piece_index == 2 {
                    98u8
                } else if piece_index == 3 {
                    114u8
                } else if piece_index == 4 {
                    113u8
                } else {
                    107u8
                };
                if board.state.white.and(BitBoard::index(idx)).is_set() {
                    out.push((piece_char - 32u8) as char);
                } else {
                    out.push(piece_char as char);
                }
            },
            None => {
                empty_count = empty_count + 1;
            },
        }
        proof {
            assert(out@ =~= above + row_scan(position, row as int, col + 1).0);
        }
        col = col + 1;
    }
    if empty_count > 0 {
        out.push((48u8 + empty_count) as char);
    }
    proof {
        assert(out@ =~= above + row_text(position, row as int));
    }
}

/// Adds the text of the eight rows of the board, from the top.
fn push_rows(board: &Board, out: &mut Vec<char>)
    requires
        board.state@.wf(),
    ensures
        final(out)@ == old(out)@ + rows_text(board.state@, 8),
{
    let ghost position = board.state@;
    let mut done: u16 = 0;
    proof {
        assert(out@ =~= old(out)@ + rows_text(position, 0));
    }
    while done < 8
        invariant
            done <= 8,
            position == board.state@,
            position.wf(),
            out@ == old(out)@ + rows_text(position, done as int),
        decreases 8 - done,
    {
        let row: u16 = 7 - done;
        if done > 0 {
            out.push('/');
        }
        let ghost above = out@;
        push_row(board, out, row);
        proof {
            assert(out@ =~= old(out)@ + rows_text(position, done + 1));
        }
        done = done + 1;
    }
}

/// Adds the text of the rights to castle.
fn push_rights(out: &mut Vec<char>, rights: CastlingRights)
    ensures
        final(out)@ == old(out)@ + rights_text(rights),
{
    let ghost mut listed: Seq<char> = Seq::empty();
    if rights.white_king_side {
        out.push('K');
        proof {
            listed = listed.push('K');
        }
    }
    if rights.white_queen_side {
        out.push('Q');
        proof {
            listed = listed.push('Q');
        }
    }
    if rights.black_king_side {
        out.push('k');
        proof {
            listed = listed.push('k');
        }
    }
    if rights.black_queen_side {
        out.push('q');
        proof {
            listed = listed.push('q');
        }
    }
    proof {
        assert(out@ =~= old(out)@ + listed);
        assert(listed =~= (if rights.white_king_side {
            seq!['K']
        } else {
            Seq::empty()
        }) + (if rights.white_queen_side {
            seq!['Q']
        } else {
            Seq::empty()
        }) + (if rights.black_king_side {
            seq!['k']
        } else {
            Seq::empty()
        }) + (if rights.black_queen_side {
            seq!['q']
        } else {
            Seq::empty()
        }));
    }
    if !rights.white_king_side && !rights.white_queen_side && !rights.black_king_side
        && !rights.black_queen_side {
        out.push('-');
    }
    proof {
        assert(out@ =~= old(out)@ + rights_text(rights));
    }
}

/// The square over which a pawn went in the last ply, if it made a double
/// step.
fn last_passed_square(board: &Board) -> (r: Option<u16>)
    ensures
        r == passed_square(board.state@, board.last()),
{
    let mut en_passant: Option<u16> = None;
    let count = board.history.len();
    if count > 0 {
        match board.history[count - 1] {
            ActionRecord::Action(last_move) => {
                if last_move.from < 64 && last_move.to < 64 {
                    let was_pawn_move = match board.state.piece_at(last_move.to) {
                        Some(last_piece_index) => last_piece_index == PAWN,
                        None => false,
                    };
                    if was_pawn_move {
                        match board.state.moving_team.next() {
                            Team::White => {
                                if last_move.to == last_move.from + 16 {
                                    en_passant = Some(last_move.to - 8);
                                }
                            },
                            Team::Black => {
                                if last_move.from == last_move.to + 16 {
                                    en_passant = Some(last_move.to + 8);
                                }
                            },
                        }
                    }
                }
            },
            ActionRecord::Null() => {},
        }
    }
    en_passant
}

/// Adds the text of the en passant square.
fn push_en_passant(board: &Board, out: &mut Vec<char>)
    ensures
        final(out)@ == old(out)@ + en_passant_text(board.state@, board.last()),
{
    match last_passed_square(board) {
        Some(square) => {
            let name = index_to_square(square);
            let chars = chars_of(name.as_str());
            push_all(out, &chars);
        },
        None => {
            out.push('-');
            proof {
                assert(out@ =~= old(out)@ + seq!['-']);
            }
        },
    }
}

impl ChessProcessor {
    /// The text of the position on the board.
    pub fn save(&self, board: &Board) -> (text: String)
        requires
            board.game.board_ok(),
            board.state@.wf(),
        ensures
            text@ == position_text(board.state@, board.last(), board.game.bounds),
    {
        let mut out: Vec<char> = Vec::new();

        // 1. Piece Placement
        push_rows(board, &mut out);
        proof {
            assert(out@ =~= rows_text(board.state@, 8));
        }

        // 2. Active Color
        out.push(' ');
        out.push(
            match board.state.moving_team {
                Team::White => 'w',
                Team::Black => 'b',
            },
        );
        out.push(' ');

        // 3. Castling Availability
        let rights = extract_castling_rights(board);
        push_rights(&mut out, rights);
        out.push(' ');

        // 4. En Passant
        push_en_passant(board, &mut out);
        out.push(' ');
        out.push('0');
        out.push(' ');
        out.push('1');
        text_of(&out)
    }
}

} // verus!
