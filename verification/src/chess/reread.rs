//! The rows of a position as they are written are read as the position:
//! what is written of a position that was read from such rows is those
//! rows again.
use vstd::prelude::*;
use crate::bitboard::group_bitboard_has;
use crate::bitboard::lemma_same_squares;
use crate::chess::fen::{chess_letters, flushed, piece_char, row_scan, row_text, rows_text};
use crate::chess::geometry::chess_bounds;
use crate::game::load::{LoadError, Placing, is_lower, lower_of, place_row, place_rows, placed};
use crate::game::text::{digit_char, digit_of, first_of, lemma_first_of, lemma_first_of_is, split};
use crate::game::{BoardView, NO_PIECE, PIECE_KINDS};

verus! {

broadcast use group_bitboard_has;

/// Whether writing has gone through the square when the rows above `row`
/// are written and the first `col` squares of row `row`.
pub open spec fn gone_through(sq: int, row: int, col: int) -> bool {
    sq >= 8 * row + 8 || (8 * row <= sq < 8 * row + col)
}

/// Whether `part` holds on the square what `whole` holds there, or
/// nothing where `on` does not hold; what it holds counts as unmoved.
pub open spec fn square_part(part: BoardView, whole: BoardView, sq: int, on: bool) -> bool {
    &&& part.white.has(sq) == (on && whole.white.has(sq))
    &&& part.black.has(sq) == (on && whole.black.has(sq))
    &&& part.first_move.has(sq) == (on && (whole.white.has(sq) || whole.black.has(sq)))
    &&& part.mailbox[sq] == (if on {
        whole.mailbox[sq]
    } else {
        NO_PIECE
    })
    &&& forall|k: int|
        0 <= k < PIECE_KINDS ==> #[trigger] part.pieces[k].has(sq) == (on && whole.pieces[k].has(
            sq,
        ))
}

/// Whether `part` holds the pieces of `whole` on the squares that writing
/// has gone through, and no others.
pub open spec fn part_of(part: BoardView, whole: BoardView, row: int, col: int) -> bool {
    &&& part.pieces.len() == PIECE_KINDS
    &&& part.mailbox.len() == 64
    &&& forall|sq: int|
        0 <= sq < 64 ==> #[trigger] square_part(part, whole, sq, gone_through(sq, row, col))
}

/// The letter of a piece is no digit and no stroke, and names the kind and
/// the team of the piece.
pub proof fn lemma_piece_char(kind: int, white: bool)
    requires
        0 <= kind < PIECE_KINDS,
    ensures
        digit_of(piece_char(kind, white)).is_none(),
        piece_char(kind, white) != '/',
        chess_letters().dom().contains(lower_of(piece_char(kind, white))),
        chess_letters()[lower_of(piece_char(kind, white))] == kind,
        is_lower(piece_char(kind, white)) == !white,
{
}

/// The digit of a number from 1 to 8 stands for the number and is no
/// stroke.
pub proof fn lemma_digit_char(n: int)
    requires
        1 <= n <= 8,
    ensures
        digit_of(digit_char(n)) == Some(n as u16),
        digit_char(n) != '/',
{
}

/// The run of empty squares that is written at the end of a text moves
/// the column on by its length.
pub proof fn lemma_flushed_placed(
    start: Result<Placing, LoadError>,
    text: Seq<char>,
    empty: int,
    y: int,
)
    requires
        place_row(start, text, y, chess_letters(), chess_bounds()).is_ok(),
        0 <= empty <= 8,
        place_row(start, text, y, chess_letters(), chess_bounds()).unwrap().column + empty <= 8,
    ensures
        place_row(start, flushed(text, empty), y, chess_letters(), chess_bounds()) == Ok::<
            Placing,
            LoadError,
        >(
            Placing {
                position: place_row(
                    start,
                    text,
                    y,
                    chess_letters(),
                    chess_bounds(),
                ).unwrap().position,
                column: (place_row(start, text, y, chess_letters(), chess_bounds()).unwrap().column
                    + empty) as u16,
            },
        ),
{
    if empty > 0 {
        let more = text.push(digit_char(empty));
        assert(more.drop_last() =~= text);
        lemma_digit_char(empty);
    }
}

/// A piece put on the next square of a row adds that square to what has
/// been gone through.
pub proof fn lemma_piece_placed(whole: BoardView, part: BoardView, row: int, col: int)
    requires
        whole.wf(),
        0 <= row < 8,
        0 <= col < 8,
        part_of(part, whole, row, col),
        whole.piece_at((row * 8 + col) as u16).is_some(),
    ensures
        part_of(
            part.with_piece(
                row * 8 + col,
                whole.piece_at((row * 8 + col) as u16).unwrap() as int,
                !whole.white.has(row * 8 + col),
            ),
            whole,
            row,
            col + 1,
        ),
{
    let at = row * 8 + col;
    let kind = whole.piece_at(at as u16).unwrap() as int;
    let next = part.with_piece(at, kind, !whole.white.has(at));
    assert(whole.square_ok(at));
    assert forall|sq: int| 0 <= sq < 64 implies #[trigger] square_part(
        next,
        whole,
        sq,
        gone_through(sq, row, col + 1),
    ) by {
        assert(square_part(part, whole, sq, gone_through(sq, row, col)));
        assert forall|k: int| 0 <= k < PIECE_KINDS implies #[trigger] next.pieces[k].has(sq) == (
        gone_through(sq, row, col + 1) && whole.pieces[k].has(sq)) by {
            assert(part.pieces[k].has(sq) == (gone_through(sq, row, col) && whole.pieces[k].has(
                sq,
            )));
            assert(whole.pieces[k].has(at) == (kind == k));
        }
    }
}

/// An empty square adds nothing to what has been gone through.
pub proof fn lemma_empty_passed(whole: BoardView, part: BoardView, row: int, col: int)
    requires
        whole.wf(),
        0 <= row < 8,
        0 <= col < 8,
        part_of(part, whole, row, col),
        whole.piece_at((row * 8 + col) as u16).is_none(),
    ensures
        part_of(part, whole, row, col + 1),
{
    let at = row * 8 + col;
    assert(whole.square_ok(at));
    assert forall|sq: int| 0 <= sq < 64 implies #[trigger] square_part(
        part,
        whole,
        sq,
        gone_through(sq, row, col + 1),
    ) by {
        assert(square_part(part, whole, sq, gone_through(sq, row, col)));
        assert forall|k: int| 0 <= k < PIECE_KINDS implies #[trigger] part.pieces[k].has(sq) == (
        gone_through(sq, row, col + 1) && whole.pieces[k].has(sq)) by {
            assert(part.pieces[k].has(sq) == (gone_through(sq, row, col) && whole.pieces[k].has(
                sq,
            )));
            assert(whole.pieces[k].has(at) == (whole.mailbox[at] == k));
        }
    }
}

/// What is written of the first `col` squares of a row is read as those
/// squares; the empty squares at its end that are not written yet are not
/// read yet. Nothing that is written is a stroke.
pub proof fn lemma_row_scan_placed(whole: BoardView, above: BoardView, row: int, col: int)
    requires
        whole.wf(),
        0 <= row < 8,
        0 <= col <= 8,
        part_of(above, whole, row, 0),
    ensures
        0 <= row_scan(whole, row, col).1 <= col,
        forall|i: int|
            0 <= i < row_scan(whole, row, col).0.len() ==> row_scan(whole, row, col).0[i] != '/',
        place_row(
            Ok(Placing { position: above, column: 0 }),
            row_scan(whole, row, col).0,
            7 - row,
            chess_letters(),
            chess_bounds(),
        ).is_ok(),
        place_row(
            Ok(Placing { position: above, column: 0 }),
            row_scan(whole, row, col).0,
            7 - row,
            chess_letters(),
            chess_bounds(),
        ).unwrap().column == col - row_scan(whole, row, col).1,
        part_of(
            place_row(
                Ok(Placing { position: above, column: 0 }),
                row_scan(whole, row, col).0,
                7 - row,
                chess_letters(),
                chess_bounds(),
            ).unwrap().position,
            whole,
            row,
            col,
        ),
    decreases col,
{
    let start: Result<Placing, LoadError> = Ok(Placing { position: above, column: 0 });
    if col > 0 {
        lemma_row_scan_placed(whole, above, row, col - 1);
        let (text, empty) = row_scan(whole, row, col - 1);
        let at = row * 8 + col - 1;
        let placing = place_row(start, text, 7 - row, chess_letters(), chess_bounds()).unwrap();
        match whole.piece_at(at as u16) {
            Some(kind) => {
                let white = whole.white.has(at);
                let letter = piece_char(kind as int, white);
                let written = flushed(text, empty);
                let more = written.push(letter);
                lemma_flushed_placed(start, text, empty, 7 - row);
                lemma_piece_char(kind as int, white);
                if empty > 0 {
                    lemma_digit_char(empty);
                }
                assert(more.drop_last() =~= written);
                assert(square_part(placing.position, whole, at, gone_through(at, row, col - 1)));
                lemma_piece_placed(whole, placing.position, row, col - 1);
                assert(row_scan(whole, row, col).0 == more);
            },
            None => {
                lemma_empty_passed(whole, placing.position, row, col - 1);
            },
        }
    }
}

/// A row as it is written is read as the row, and holds no stroke.
pub proof fn lemma_row_placed(whole: BoardView, above: BoardView, row: int)
    requires
        whole.wf(),
        0 <= row < 8,
        part_of(above, whole, row, 0),
    ensures
        forall|i: int| 0 <= i < row_text(whole, row).len() ==> row_text(whole, row)[i] != '/',
        place_row(
            Ok(Placing { position: above, column: 0 }),
            row_text(whole, row),
            7 - row,
            chess_letters(),
            chess_bounds(),
        ).is_ok(),
        part_of(
            place_row(
                Ok(Placing { position: above, column: 0 }),
                row_text(whole, row),
                7 - row,
                chess_letters(),
                chess_bounds(),
            ).unwrap().position,
            whole,
            row - 1,
            0,
        ),
{
    let start: Result<Placing, LoadError> = Ok(Placing { position: above, column: 0 });
    lemma_row_scan_placed(whole, above, row, 8);
    let (text, empty) = row_scan(whole, row, 8);
    lemma_flushed_placed(start, text, empty, 7 - row);
    if empty > 0 {
        lemma_digit_char(empty);
    }
    let read = place_row(start, text, 7 - row, chess_letters(), chess_bounds()).unwrap().position;
    assert forall|sq: int| 0 <= sq < 64 implies #[trigger] square_part(
        read,
        whole,
        sq,
        gone_through(sq, row - 1, 0),
    ) by {
        assert(square_part(read, whole, sq, gone_through(sq, row, 8)));
    }
}

/// A text that holds no separator is one part.
pub proof fn lemma_split_one(text: Seq<char>, sep: char)
    requires
        forall|i: int| 0 <= i < text.len() ==> text[i] != sep,
    ensures
        split(text, sep) == seq![text],
{
    lemma_first_of_is(text, sep, text.len() as int);
}

/// A text, a separator and a part without separators come apart as the
/// parts of the text and the part.
pub proof fn lemma_split_more(text: Seq<char>, part: Seq<char>, sep: char)
    requires
        forall|i: int| 0 <= i < part.len() ==> part[i] != sep,
    ensures
        split(text.push(sep) + part, sep) == split(text, sep).push(part),
    decreases text.len(),
{
    let whole = text.push(sep) + part;
    let cut = first_of(text, sep);
    lemma_first_of(text, sep);
    lemma_first_of_is(whole, sep, cut);
    if cut >= text.len() {
        assert(whole.take(cut) =~= text);
        assert(whole.skip(cut + 1) =~= part);
        lemma_split_one(part, sep);
        assert(split(whole, sep) =~= split(text, sep).push(part));
    } else {
        let rest = text.skip(cut + 1);
        lemma_split_more(rest, part, sep);
        assert(whole.take(cut) =~= text.take(cut));
        assert(whole.skip(cut + 1) =~= rest.push(sep) + part);
        assert(split(whole, sep) =~= split(text, sep).push(part));
    }
}

/// The texts of the `count` highest rows, from the top.
pub open spec fn row_texts(position: BoardView, count: int) -> Seq<Seq<char>> {
    Seq::new(count as nat, |i: int| row_text(position, 7 - i))
}

/// The rows as they are written come apart at the strokes as the rows,
/// and are read as the rows.
pub proof fn lemma_rows_placed(whole: BoardView, count: int)
    requires
        whole.wf(),
        1 <= count <= 8,
    ensures
        split(rows_text(whole, count), '/') == row_texts(whole, count),
        place_rows(
            BoardView::empty(),
            row_texts(whole, count),
            chess_letters(),
            chess_bounds(),
        ).is_ok(),
        part_of(
            place_rows(
                BoardView::empty(),
                row_texts(whole, count),
                chess_letters(),
                chess_bounds(),
            ).unwrap(),
            whole,
            7 - count,
            0,
        ),
    decreases count,
{
    let rows = row_texts(whole, count);
    let above = if count == 1 {
        BoardView::empty()
    } else {
        lemma_rows_placed(whole, count - 1);
        place_rows(
            BoardView::empty(),
            row_texts(whole, count - 1),
            chess_letters(),
            chess_bounds(),
        ).unwrap()
    };
    assert(rows.drop_last() =~= row_texts(whole, count - 1));
    assert(rows.last() == row_text(whole, 8 - count));
    if count == 1 {
        assert(row_texts(whole, 0) =~= Seq::<Seq<char>>::empty());
        assert forall|sq: int| 0 <= sq < 64 implies #[trigger] square_part(
            above,
            whole,
            sq,
            gone_through(sq, 7, 0),
        ) by {}
    }
    lemma_row_placed(whole, above, 8 - count);
    if count == 1 {
        lemma_split_one(row_text(whole, 7), '/');
        assert(split(rows_text(whole, 1), '/') =~= rows);
    } else {
        lemma_split_more(rows_text(whole, count - 1), row_text(whole, 8 - count), '/');
        assert(split(rows_text(whole, count), '/') =~= rows);
    }
}

/// The rows of a position as they are written are read, on an empty
/// board, as the pieces of the position.
pub proof fn lemma_written_rows_read(whole: BoardView)
    requires
        whole.wf(),
    ensures
        placed(BoardView::empty(), rows_text(whole, 8), chess_letters(), chess_bounds()).is_ok(),
        ({
            let read = placed(
                BoardView::empty(),
                rows_text(whole, 8),
                chess_letters(),
                chess_bounds(),
            ).unwrap();
            &&& read.white == whole.white
            &&& read.black == whole.black
            &&& read.pieces == whole.pieces
            &&& read.mailbox == whole.mailbox
        }),
{
    lemma_rows_placed(whole, 8);
    let read = placed(
        BoardView::empty(),
        rows_text(whole, 8),
        chess_letters(),
        chess_bounds(),
    ).unwrap();
    assert forall|sq: int| 0 <= sq < 64 implies read.white.has(sq) == whole.white.has(sq)
        && read.black.has(sq) == whole.black.has(sq) && read.mailbox[sq] == whole.mailbox[sq]
        && (forall|k: int|
        0 <= k < PIECE_KINDS ==> #[trigger] read.pieces[k].has(sq) == whole.pieces[k].has(sq)) by {
        assert(square_part(read, whole, sq, gone_through(sq, -1, 0)));
    }
    lemma_same_squares(read.white, whole.white);
    lemma_same_squares(read.black, whole.black);
    assert forall|k: int| 0 <= k < PIECE_KINDS implies read.pieces[k] == whole.pieces[k] by {
        assert forall|sq: int| 0 <= sq < 64 implies read.pieces[k].has(sq) == whole.pieces[k].has(
            sq,
        ) by {
            assert(square_part(read, whole, sq, gone_through(sq, -1, 0)));
        }
        lemma_same_squares(read.pieces[k], whole.pieces[k]);
    }
    assert(read.pieces =~= whole.pieces);
    assert(read.mailbox =~= whole.mailbox);
}

} // verus!
