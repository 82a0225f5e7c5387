//! Setting up a position from the text that names the pieces row by row.
use vstd::prelude::*;
use crate::bitboard::{BitBoard, Bounds};
use crate::bitboard::group_bitboard_has;

use crate::game::piece_map::{Letters, kind_of, letters};
use crate::game::text::{chars_of, digit_of, parts_view, split, split_at, to_digit};
use crate::game::{Board, BoardView, NO_PIECE, PIECE_KINDS};

verus! {

broadcast use group_bitboard_has;

/// Why a position text was turned down.
#[derive(Clone, Copy, Debug, PartialEq, Eq, Structural)]
pub enum LoadError {
    /// The text has fewer than four fields.
    MissingField,
    /// A piece is placed beyond the last column or below the last row.
    OffBoard,
    /// A piece is placed on a square on which one stands already.
    Occupied,
    /// The en passant square has no row before it or behind it.
    BadEnPassant,
}

/// The small letter of a capital letter; any other character itself.
pub open spec fn lower_of(c: char) -> char {
    if 'A' <= c <= 'Z' {
        (((c as u8) + 32) as u8) as char
    } else {
        c
    }
}

/// Whether the character is one of the small letters `a` to `z`, which
/// name black pieces.
pub open spec fn is_lower(c: char) -> bool {
    'a' <= c <= 'z'
}

/// The small letter of a capital letter; any other character itself.
pub fn to_lower(c: char) -> (r: char)
    ensures
        r == lower_of(c),
{
    if 'A' <= c && c <= 'Z' {
        ((c as u8) + 32u8) as char
    } else {
        c
    }
}

/// A position that is being set up, and the column in which the next
/// character of the row places its piece.
pub struct Placing {
    pub position: BoardView,
    pub column: u16,
}

impl BoardView {
    /// The position with a piece of kind `kind` put on the free square
    /// `sq`; the piece counts as unmoved.
    pub open spec fn with_piece(self, sq: int, kind: int, black: bool) -> BoardView {
        let piece = BitBoard::index(sq as u16);
        BoardView {
            moving_team: self.moving_team,
            first_move: self.first_move.or(piece),
            white: if black {
                self.white
            } else {
                self.white.or(piece)
            },
            black: if black {
                self.black.or(piece)
            } else {
                self.black
            },
            pieces: self.pieces.update(kind, self.pieces[kind].or(piece)),
            mailbox: self.mailbox.update(sq, kind as u8),
        }
    }

    /// A piece put on a free square leaves a well-formed position well
    /// formed.
    pub proof fn lemma_with_piece_wf(self, sq: int, kind: int, black: bool)
        requires
            self.wf(),
            0 <= sq < 64,
            0 <= kind < PIECE_KINDS,
            self.mailbox[sq] == NO_PIECE,
        ensures
            self.with_piece(sq, kind, black).wf(),
    {
        let next = self.with_piece(sq, kind, black);
        assert forall|at: int| 0 <= at < 64 implies #[trigger] next.square_ok(at) by {
            assert(self.square_ok(at));
            assert(self.square_ok(sq));
            assert forall|k: int| 0 <= k < PIECE_KINDS implies #[trigger] next.pieces[k].has(at)
                == (next.mailbox[at] == k) by {
                assert(self.pieces[k].has(at) == (self.mailbox[at] == k));
            }
        }
    }
}

/// What one character of row `y`, counted from the top, does to a position
/// that is being set up: a digit moves on by that many columns, though not
/// beyond the board's width; a letter of `map`, capital or small, puts a
/// piece of its kind into the column, black if the letter is small, and
/// moves on by one column; any other character moves on by one column. A
/// piece beyond the board or on a square that is taken is an error.
pub open spec fn place_char(
    placing: Result<Placing, LoadError>,
    c: char,
    y: int,
    map: Map<char, usize>,
    bounds: Bounds,
) -> Result<Placing, LoadError> {
    match placing {
        Err(e) => Err(e),
        Ok(p) => {
            let ahead = |by: int|
                if p.column + by > bounds.cols {
                    bounds.cols
                } else {
                    (p.column + by) as u16
                };
            match digit_of(c) {
                Some(skip) => Ok(Placing { position: p.position, column: ahead(skip as int) }),
                None => {
                    if map.dom().contains(lower_of(c)) {
                        let sq = (bounds.rows - 1 - y) * bounds.cols + p.column;
                        if p.column >= bounds.cols || y >= bounds.rows {
                            Err(LoadError::OffBoard)
                        } else if p.position.mailbox[sq] != NO_PIECE {
                            Err(LoadError::Occupied)
                        } else {
                            Ok(
                                Placing {
                                    position: p.position.with_piece(
                                        sq,
                                        map[lower_of(c)] as int,
                                        is_lower(c),
                                    ),
                                    column: ahead(1),
                                },
                            )
                        }
                    } else {
                        Ok(Placing { position: p.position, column: ahead(1) })
                    }
                },
            }
        },
    }
}

/// What the characters of row `y` do, one after the other.
pub open spec fn place_row(
    placing: Result<Placing, LoadError>,
    row: Seq<char>,
    y: int,
    map: Map<char, usize>,
    bounds: Bounds,
) -> Result<Placing, LoadError>
    decreases row.len(),
{
    if row.len() == 0 {
        placing
    } else {
        place_char(place_row(placing, row.drop_last(), y, map, bounds), row.last(), y, map, bounds)
    }
}

/// What the rows do, the first one being the top row; each row starts in
/// column 0.
pub open spec fn place_rows(
    position: BoardView,
    rows: Seq<Seq<char>>,
    map: Map<char, usize>,
    bounds: Bounds,
) -> Result<BoardView, LoadError>
    decreases rows.len(),
{
    if rows.len() == 0 {
        Ok(position)
    } else {
        match place_rows(position, rows.drop_last(), map, bounds) {
            Err(e) => Err(e),
            Ok(above) => match place_row(
                Ok(Placing { position: above, column: 0 }),
                rows.last(),
                rows.len() - 1,
                map,
                bounds,
            ) {
                Err(e) => Err(e),
                Ok(p) => Ok(p.position),
            },
        }
    }
}

/// The position with the pieces that the text names, row by row from the
/// top, the rows parted by `/`.
pub open spec fn placed(position: BoardView, text: Seq<char>, map: Map<char, usize>, bounds: Bounds)
    -> Result<BoardView, LoadError> {
    place_rows(position, split(text, '/'), map, bounds)
}

/// Every kind that the map names is one of the kinds of a position.
pub open spec fn kinds_ok(map: Map<char, usize>) -> bool {
    forall|c: char| #![trigger map[c]] map.dom().contains(c) ==> map[c] < PIECE_KINDS
}

impl<'a> Board<'a> {
    /// Puts the pieces that the text names onto the board, row by row from
    /// the top. Where the text is turned down the board is as it was.
    pub fn load_pieces(&mut self, pos: &str, piece_map: &Letters) -> (r: Result<
        (),
        LoadError,
    >)
        requires
            old(self).state@.wf(),
            old(self).game.bounds.fits(),
            kinds_ok(letters(*piece_map)),
        ensures
            final(self).game == old(self).game,
            final(self).history == old(self).history,
            final(self).state@.wf(),
            match r {
                Ok(()) => Ok::<BoardView, LoadError>(final(self).state@) == placed(
                    old(self).state@,
                    pos@,
                    letters(*piece_map),
                    old(self).game.bounds,
                ),
                Err(e) => final(self).state == old(self).state && Err::<BoardView, LoadError>(e)
                    == placed(old(self).state@, pos@, letters(*piece_map), old(self).game.bounds),
            },
    {
        let text = chars_of(pos);
        let rows = split_at(&text, '/');
        let bounds = self.game.bounds;
        let ghost map = letters(*piece_map);
        let ghost start = self.state@;
        let ghost lines = split(pos@, '/');
        let mut state = self.state;

        let mut y: usize = 0;
        while y < rows.len()
            invariant
                y <= rows@.len(),
                parts_view(rows@) == lines,
                bounds.fits(),
                kinds_ok(map),
                map == letters(*piece_map),
                state@.wf(),
                Ok::<BoardView, LoadError>(state@) == place_rows(
                    start,
                    lines.take(y as int),
                    map,
                    bounds,
                ),
                *self == *old(self),
                old(self).state@.wf(),
                start == old(self).state@,
                bounds == old(self).game.bounds,
                lines == split(pos@, '/'),
            decreases rows@.len() - y,
        {
            let row = &rows[y];
            let ghost line = lines[y as int];
            let ghost above = state@;
            let mut x: u16 = 0;
            let mut at: usize = 0;
            proof {
                assert(parts_view(rows@).len() == rows@.len());
                assert(lines.take(y + 1).drop_last() =~= lines.take(y as int));
                assert(parts_view(rows@)[y as int] == row@);
                assert(row@ == line);
            }
            while at < row.len()
                invariant
                    at <= row@.len(),
                    row@ == line,
                    x <= bounds.cols,
                    bounds.fits(),
                    kinds_ok(map),
                    map == letters(*piece_map),
                    state@.wf(),
                    Ok::<Placing, LoadError>(Placing { position: state@, column: x })
                        == place_row(
                        Ok(Placing { position: above, column: 0 }),
                        line.take(at as int),
                        y as int,
                        map,
                        bounds,
                    ),
                    *self == *old(self),
                    old(self).state@.wf(),
                    start == old(self).state@,
                    bounds == old(self).game.bounds,
                    lines == split(pos@, '/'),
                    y < rows@.len(),
                    rows@.len() == lines.len(),
                    lines.take(y + 1).drop_last() == lines.take(y as int),
                    lines.take(y + 1).last() == line,
                    Ok::<BoardView, LoadError>(above) == place_rows(
                        start,
                        lines.take(y as int),
                        map,
                        bounds,
                    ),
                decreases row@.len() - at,
            {
                let c = row[at];
                proof {
                    assert(line.take(at + 1).drop_last() =~= line.take(at as int));
                }
                let ghost before = Ok::<Placing, LoadError>(Placing { position: state@, column: x });
                let ghost after = place_char(before, c, y as int, map, bounds);
                let mut step: u16 = 1;
                let mut failed: Option<LoadError> = None;
                match to_digit(c) {
                    Some(skip) => {
                        step = skip;
                    },
                    None => {
                        match kind_of(piece_map, to_lower(c)) {
                            Some(kind) => {
                                if x >= bounds.cols || y >= bounds.rows as usize {
                                    failed = Some(LoadError::OffBoard);
                                } else {
                                    proof {
                                        let row_up = bounds.rows - 1 - y;
                                        let width = bounds.cols as int;
                                        assert((row_up + 1) * width <= bounds.rows * width)
                                            by (nonlinear_arith)
                                            requires
                                                row_up + 1 <= bounds.rows,
                                                width >= 0,
                                        ;
                                        assert((row_up + 1) * width == row_up * width + width)
                                            by (nonlinear_arith);
                                        assert(0 <= row_up * width) by (nonlinear_arith)
                                            requires
                                                row_up >= 0,
                                                width >= 0,
                                        ;
                                    }
                                    let sq: u16 = (bounds.rows - 1 - y as u16) * bounds.cols + x;
                                    if state.mailbox[sq as usize] != NO_PIECE {
                                        failed = Some(LoadError::Occupied);
                                    } else {
                                        let piece = BitBoard::index(sq);
                                        let is_black = 'a' <= c && c <= 'z';
                                        proof {
                                            state@.lemma_with_piece_wf(sq as int, kind as int, is_black);
                                        }
                                        let ghost old_state = state@;
                                        state.first_move = state.first_move.or(piece);
                                        state.pieces[kind] = state.pieces[kind].or(piece);
                                        if is_black {
                                            state.black = state.black.or(piece);
                                        } else {
                                            state.white = state.white.or(piece);
                                        }
                                        state.mailbox[sq as usize] = kind as u8;
                                        proof {
                                            let next = old_state.with_piece(
                                                sq as int,
                                                kind as int,
                                                is_black,
                                            );
                                            assert(state@.pieces =~= next.pieces);
                                            assert(state@.mailbox =~= next.mailbox);
                                        }
                                    }
                                }
                            },
                            None => {},
                        }
                    },
                }
                match failed {
                    Some(e) => {
                        proof {
                            assert(after == Err::<Placing, LoadError>(e));
                            lemma_row_fails(
                                Ok(Placing { position: above, column: 0 }),
                                line,
                                y as int,
                                map,
                                bounds,
                                at + 1,
                                e,
                            );
                            lemma_rows_fail(start, lines, map, bounds, y + 1, e);
                        }
                        return Err(e);
                    },
                    None => {},
                }
                x = if step > bounds.cols - x {
                    bounds.cols
                } else {
                    x + step
                };
                at = at + 1;
            }
            proof {
                assert(line.take(at as int) =~= line);
            }
            y = y + 1;
        }
        proof {
            assert(lines.take(y as int) =~= lines);
        }
        self.state = state;
        Ok(())
    }
}

/// A row in which some character fails fails as a whole, in the same way.
pub proof fn lemma_row_fails(
    placing: Result<Placing, LoadError>,
    row: Seq<char>,
    y: int,
    map: Map<char, usize>,
    bounds: Bounds,
    upto: int,
    e: LoadError,
)
    requires
        0 <= upto <= row.len(),
        place_row(placing, row.take(upto), y, map, bounds) == Err::<Placing, LoadError>(e),
    ensures
        place_row(placing, row, y, map, bounds) == Err::<Placing, LoadError>(e),
    decreases row.len() - upto,
{
    if upto < row.len() {
        assert(row.take(upto + 1).drop_last() =~= row.take(upto));
        lemma_row_fails(placing, row, y, map, bounds, upto + 1, e);
    } else {
        assert(row.take(upto) =~= row);
    }
}

/// Rows of which one fails fail as a whole, in the same way.
pub proof fn lemma_rows_fail(
    position: BoardView,
    rows: Seq<Seq<char>>,
    map: Map<char, usize>,
    bounds: Bounds,
    upto: int,
    e: LoadError,
)
    requires
        0 <= upto <= rows.len(),
        place_rows(position, rows.take(upto), map, bounds) == Err::<BoardView, LoadError>(e),
    ensures
        place_rows(position, rows, map, bounds) == Err::<BoardView, LoadError>(e),
    decreases rows.len() - upto,
{
    if upto < rows.len() {
        assert(rows.take(upto + 1).drop_last() =~= rows.take(upto));
        lemma_rows_fail(position, rows, map, bounds, upto + 1, e);
    } else {
        assert(rows.take(upto) =~= rows);
    }
}

} // verus!
