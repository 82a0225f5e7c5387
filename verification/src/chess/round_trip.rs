//! What is written of a position that was read from a text: fields of the
//! text that come back as they were.
use vstd::prelude::*;
use crate::bitboard::group_bitboard_has;
use crate::bitboard::{Bounds, in_left_edge, in_right_edge};
use crate::chess::fen::{
    chess_letters, en_passant_record, en_passant_text, flushed, loaded, passed_square,
    pawn_advanced, position_text, rights_text, rook_barred, row_scan, row_text,
    rows_text, side_char,
};
use crate::chess::reread::{lemma_split_more, lemma_split_one, lemma_written_rows_read};
use crate::chess::geometry::chess_bounds;
use crate::chess::rights::{CastlingRights, castling_rights, may_castle, unmoved_king, unmoved_rook};
use crate::chess::{KING, PAWN, ROOK};
use crate::game::action::{named_square, square_name};
use crate::game::load::{LoadError, Placing, place_char, place_row, place_rows, placed};
use crate::game::text::{has_char, split};
use crate::game::{BoardView, Team};

verus! {

broadcast use group_bitboard_has;

/// The name of the square that a name stands for is the name.
pub proof fn lemma_name_of_named(name: Seq<char>)
    requires
        named_square(name).is_some(),
    ensures
        square_name(named_square(name).unwrap()) == name,
        named_square(name).unwrap() < 64,
{
    let file = ((name[0] as u8) - ('a' as u8)) as int;
    let rank = ((name[1] as u8) - ('1' as u8)) as int;
    let square = named_square(name).unwrap();
    assert(square == rank * 8 + file);
    assert(square % 8 == file);
    assert(square / 8 == rank);
    assert(square_name(square) =~= name);
}

/// The side to move is written as it was read: a text whose second field
/// is `w` or `b` gives a position for which that letter is written.
pub proof fn lemma_side_comes_back(before: BoardView, text: Seq<char>, after: BoardView)
    requires
        loaded(before, text, chess_bounds(), after),
        split(text, ' ')[1] == seq!['w'] || split(text, ' ')[1] == seq!['b'],
    ensures
        seq![side_char(after.moving_team)] == split(text, ' ')[1],
{
    let field = split(text, ' ')[1];
    if field == seq!['w'] {
        assert(field =~= seq!['w']);
    } else {
        assert(field[0] == 'b');
        assert(!(field =~= seq!['w']));
    }
    assert(seq![side_char(after.moving_team)] =~= field);
}

/// The en passant square is written as it was read. The field is a dash,
/// or the name of a square in the third row from the bottom where white is
/// to move and in the third from the top where black is, and a pawn
/// stands on the square next to it to which the double step led.
pub proof fn lemma_en_passant_comes_back(position: BoardView, field: Seq<char>)
    requires
        field == seq!['-'] || (named_square(field) matches Some(square) && match position.moving_team {
            Team::White => 40 <= square < 48 && position.piece_at((square - 8) as u16) == Some(
                PAWN,
            ),
            Team::Black => 16 <= square < 24 && position.piece_at((square + 8) as u16) == Some(
                PAWN,
            ),
        }),
    ensures
        en_passant_text(
            position,
            en_passant_record(field, position.moving_team, chess_bounds()),
        ) == field,
{
    let record = en_passant_record(field, position.moving_team, chess_bounds());
    if field == seq!['-'] {
        assert(field.len() == 1);
        assert(named_square(field).is_none());
        assert(passed_square(position, record).is_none());
    } else {
        lemma_name_of_named(field);
        let square = named_square(field).unwrap();
        assert(passed_square(position, record) == Some(square));
    }
}

/// Whether every square that a team holds counts as unmoved.
pub open spec fn all_unmoved(position: BoardView) -> bool {
    forall|sq: int|
        #![trigger position.first_move.has(sq)]
        (position.white.has(sq) || position.black.has(sq)) ==> position.first_move.has(sq)
}

/// A character that is placed leaves every piece unmoved.
pub proof fn lemma_char_keeps_unmoved(
    placing: Result<Placing, LoadError>,
    c: char,
    y: int,
    map: Map<char, usize>,
    bounds: Bounds,
)
    requires
        placing matches Ok(p) ==> all_unmoved(p.position),
    ensures
        place_char(placing, c, y, map, bounds) matches Ok(q) ==> all_unmoved(q.position),
{
}

/// A row that is placed leaves every piece unmoved.
pub proof fn lemma_row_keeps_unmoved(
    placing: Result<Placing, LoadError>,
    row: Seq<char>,
    y: int,
    map: Map<char, usize>,
    bounds: Bounds,
)
    requires
        placing matches Ok(p) ==> all_unmoved(p.position),
    ensures
        place_row(placing, row, y, map, bounds) matches Ok(q) ==> all_unmoved(q.position),
    decreases row.len(),
{
    if row.len() > 0 {
        lemma_row_keeps_unmoved(placing, row.drop_last(), y, map, bounds);
        lemma_char_keeps_unmoved(
            place_row(placing, row.drop_last(), y, map, bounds),
            row.last(),
            y,
            map,
            bounds,
        );
    }
}

/// Rows that are placed leave every piece unmoved.
pub proof fn lemma_rows_keep_unmoved(
    position: BoardView,
    rows: Seq<Seq<char>>,
    map: Map<char, usize>,
    bounds: Bounds,
)
    requires
        all_unmoved(position),
    ensures
        place_rows(position, rows, map, bounds) matches Ok(q) ==> all_unmoved(q),
    decreases rows.len(),
{
    if rows.len() > 0 {
        lemma_rows_keep_unmoved(position, rows.drop_last(), map, bounds);
        if place_rows(position, rows.drop_last(), map, bounds).is_ok() {
            let above = place_rows(position, rows.drop_last(), map, bounds).unwrap();
            lemma_row_keeps_unmoved(
                Ok(Placing { position: above, column: 0 }),
                rows.last(),
                rows.len() - 1,
                map,
                bounds,
            );
        }
    }
}

/// The letters that the text of the rights to castle holds are those of
/// the rights.
pub proof fn lemma_rights_letters(rights: CastlingRights)
    ensures
        has_char(rights_text(rights), 'K') == rights.white_king_side,
        has_char(rights_text(rights), 'Q') == rights.white_queen_side,
        has_char(rights_text(rights), 'k') == rights.black_king_side,
        has_char(rights_text(rights), 'q') == rights.black_queen_side,
{
    let text = rights_text(rights);
    let white_king = if rights.white_king_side {
        seq!['K']
    } else {
        Seq::empty()
    };
    let white_queen = if rights.white_queen_side {
        seq!['Q']
    } else {
        Seq::empty()
    };
    let black_king = if rights.black_king_side {
        seq!['k']
    } else {
        Seq::empty()
    };
    let black_queen = if rights.black_queen_side {
        seq!['q']
    } else {
        Seq::empty()
    };
    let letters = white_king + white_queen + black_king + black_queen;
    assert forall|i: int| 0 <= i < text.len() implies (text[i] == 'K' ==> rights.white_king_side)
        && (text[i] == 'Q' ==> rights.white_queen_side) && (text[i] == 'k'
        ==> rights.black_king_side) && (text[i] == 'q' ==> rights.black_queen_side) by {}
    if rights.white_king_side {
        assert(text[0] == 'K');
    }
    if rights.white_queen_side {
        assert(text[white_king.len() as int] == 'Q');
    }
    if rights.black_king_side {
        assert(text[(white_king.len() + white_queen.len()) as int] == 'k');
    }
    if rights.black_queen_side {
        assert(text[(white_king.len() + white_queen.len() + black_king.len()) as int] == 'q');
    }
}

/// The pieces that a right to castle is about stand on the board: a rook of
/// the team in that half, and a king of the team.
pub open spec fn pair_stands(position: BoardView, team: Team, king_side: bool) -> bool {
    &&& exists|sq: int|
        #![trigger position.pieces[ROOK as int].has(sq)]
        position.pieces[ROOK as int].has(sq) && position.team(team).has(sq) && if king_side {
            in_right_edge(chess_bounds(), 4, sq)
        } else {
            in_left_edge(chess_bounds(), 4, sq)
        }
    &&& exists|sq: int|
        #![trigger position.pieces[KING as int].has(sq)]
        position.pieces[KING as int].has(sq) && position.team(team).has(sq)
}

/// One right to castle is read off the position that was loaded as the
/// field of the text has it, where the pair that the letter is about
/// stands on the board.
pub proof fn lemma_right_comes_back(
    before: BoardView,
    text: Seq<char>,
    after: BoardView,
    team: Team,
    king_side: bool,
    letter: char,
)
    requires
        loaded(before, text, chess_bounds(), after),
        all_unmoved(before),
        after.wf(),
        letter == (match team {
            Team::White => if king_side {
                'K'
            } else {
                'Q'
            },
            Team::Black => if king_side {
                'k'
            } else {
                'q'
            },
        }),
        has_char(split(text, ' ')[2], letter) ==> pair_stands(after, team, king_side),
    ensures
        may_castle(after, chess_bounds(), team, king_side) == has_char(split(text, ' ')[2], letter),
{
    let bounds = chess_bounds();
    let fields = split(text, ' ');
    let set = placed(before, fields[0], chess_letters(), bounds).unwrap();
    lemma_rows_keep_unmoved(before, split(fields[0], '/'), chess_letters(), bounds);
    assert forall|sq: int| 0 <= sq < 64 implies #[trigger] after.square_ok(sq) by {}
    if has_char(fields[2], letter) {
        let rook = choose|sq: int|
            #![trigger after.pieces[ROOK as int].has(sq)]
            after.pieces[ROOK as int].has(sq) && after.team(team).has(sq) && if king_side {
                in_right_edge(bounds, 4, sq)
            } else {
                in_left_edge(bounds, 4, sq)
            };
        let king = choose|sq: int|
            #![trigger after.pieces[KING as int].has(sq)]
            after.pieces[KING as int].has(sq) && after.team(team).has(sq);
        assert(after.square_ok(rook));
        assert(after.square_ok(king));
        assert(set.first_move.has(rook));
        assert(set.first_move.has(king));
        assert(!rook_barred(set, fields[2], bounds, rook));
        assert(!pawn_advanced(set, bounds, rook));
        assert(!rook_barred(set, fields[2], bounds, king));
        assert(!pawn_advanced(set, bounds, king));
        assert(after.first_move.has(rook));
        assert(after.first_move.has(king));
        assert(unmoved_rook(after, bounds, team, king_side));
        assert(unmoved_king(after, team));
    } else {
        assert forall|sq: int|
            !(#[trigger] after.pieces[ROOK as int].has(sq) && after.first_move.has(sq)
                && after.team(team).has(sq) && if king_side {
                in_right_edge(bounds, 4, sq)
            } else {
                in_left_edge(bounds, 4, sq)
            }) by {
            if after.pieces[ROOK as int].has(sq) && after.team(team).has(sq) && (if king_side {
                in_right_edge(bounds, 4, sq)
            } else {
                in_left_edge(bounds, 4, sq)
            }) {
                assert(rook_barred(set, fields[2], bounds, sq));
                assert(!after.first_move.has(sq));
            }
        }
    }
}

/// The rights to castle are written as they were read. The field is the
/// text of some rights, and for each of them the rook and the king that
/// it is about stand on the board.
pub proof fn lemma_rights_come_back(
    before: BoardView,
    text: Seq<char>,
    after: BoardView,
    rights: CastlingRights,
)
    requires
        loaded(before, text, chess_bounds(), after),
        all_unmoved(before),
        after.wf(),
        split(text, ' ')[2] == rights_text(rights),
        rights.white_king_side ==> pair_stands(after, Team::White, true),
        rights.white_queen_side ==> pair_stands(after, Team::White, false),
        rights.black_king_side ==> pair_stands(after, Team::Black, true),
        rights.black_queen_side ==> pair_stands(after, Team::Black, false),
    ensures
        rights_text(castling_rights(after, chess_bounds())) == split(text, ' ')[2],
{
    lemma_rights_letters(rights);
    lemma_right_comes_back(before, text, after, Team::White, true, 'K');
    lemma_right_comes_back(before, text, after, Team::White, false, 'Q');
    lemma_right_comes_back(before, text, after, Team::Black, true, 'k');
    lemma_right_comes_back(before, text, after, Team::Black, false, 'q');
    assert(castling_rights(after, chess_bounds()) == rights);
}

/// Positions with the same pieces of the same teams on the same squares
/// are written with the same rows.
pub proof fn lemma_same_rows(a: BoardView, b: BoardView, count: int)
    requires
        a.mailbox == b.mailbox,
        a.white == b.white,
    ensures
        rows_text(a, count) == rows_text(b, count),
    decreases count,
{
    assert forall|row: int, col: int| row_scan(a, row, col) == row_scan(b, row, col) by {
        lemma_same_scan(a, b, row, col);
    }
    if count > 1 {
        lemma_same_rows(a, b, count - 1);
    }
}

/// Positions with the same pieces of the same teams on the same squares
/// are written alike square by square.
pub proof fn lemma_same_scan(a: BoardView, b: BoardView, row: int, col: int)
    requires
        a.mailbox == b.mailbox,
        a.white == b.white,
    ensures
        row_scan(a, row, col) == row_scan(b, row, col),
    decreases col,
{
    if col > 0 {
        lemma_same_scan(a, b, row, col - 1);
    }
}

/// The squares of a row are written without a blank.
pub proof fn lemma_scan_no_blank(position: BoardView, row: int, col: int)
    requires
        0 <= col <= 8,
    ensures
        0 <= row_scan(position, row, col).1 <= col,
        forall|i: int|
            0 <= i < row_scan(position, row, col).0.len() ==> row_scan(position, row, col).0[i]
                != ' ',
    decreases col,
{
    if col > 0 {
        lemma_scan_no_blank(position, row, col - 1);
    }
}

/// Rows are written without a blank.
pub proof fn lemma_rows_no_blank(position: BoardView, count: int)
    ensures
        forall|i: int|
            0 <= i < rows_text(position, count).len() ==> rows_text(position, count)[i] != ' ',
    decreases count,
{
    if count >= 1 {
        lemma_scan_no_blank(position, 8 - count, 8);
        let (text, empty) = row_scan(position, 8 - count, 8);
        let row = row_text(position, 8 - count);
        assert(row == flushed(text, empty));
        assert forall|i: int| 0 <= i < row.len() implies row[i] != ' ' by {
            if i < text.len() {
                assert(row[i] == text[i]);
            }
        }
        if count > 1 {
            lemma_rows_no_blank(position, count - 1);
            let above = rows_text(position, count - 1);
            let rows = rows_text(position, count);
            assert(rows == above.push('/') + row);
            assert forall|i: int| 0 <= i < rows.len() implies rows[i] != ' ' by {
                if i < above.len() {
                    assert(rows[i] == above[i]);
                } else if i > above.len() {
                    assert(rows[i] == row[i - above.len() - 1]);
                }
            }
        }
    }
}

/// The fields of a text that is written field by field, with a blank
/// after each field but the last.
pub proof fn lemma_fields_split(
    rows: Seq<char>,
    side: char,
    rights: Seq<char>,
    passed: Seq<char>,
)
    requires
        forall|i: int| 0 <= i < rows.len() ==> rows[i] != ' ',
        side != ' ',
        forall|i: int| 0 <= i < rights.len() ==> rights[i] != ' ',
        forall|i: int| 0 <= i < passed.len() ==> passed[i] != ' ',
    ensures
        split(
            ((rows.push(' ').push(side).push(' ') + rights).push(' ') + passed).push(' ').push(
                '0',
            ).push(' ').push('1'),
            ' ',
        ) == seq![rows, seq![side], rights, passed, seq!['0'], seq!['1']],
{
    let one = rows;
    let two = one.push(' ') + seq![side];
    let three = two.push(' ') + rights;
    let four = three.push(' ') + passed;
    let five = four.push(' ') + seq!['0'];
    let six = five.push(' ') + seq!['1'];
    lemma_split_one(one, ' ');
    lemma_split_more(one, seq![side], ' ');
    lemma_split_more(two, rights, ' ');
    lemma_split_more(three, passed, ' ');
    lemma_split_more(four, seq!['0'], ' ');
    lemma_split_more(five, seq!['1'], ' ');
    assert(six =~= ((rows.push(' ').push(side).push(' ') + rights).push(' ') + passed).push(
        ' ',
    ).push('0').push(' ').push('1'));
    assert(split(six, ' ') =~= seq![rows, seq![side], rights, passed, seq!['0'], seq!['1']]);
}

/// Whether the text is one as positions are written, and `after` the
/// position that was read from it: its rows are those of some position
/// `whole`; its side is `w` or `b`; its rights are the text of `rights`,
/// each of them about a rook and a king that stand on the board; and its
/// en passant square is a dash or the square behind a pawn that may just
/// have made its double step.
pub open spec fn read_as_written(
    text: Seq<char>,
    after: BoardView,
    whole: BoardView,
    rights: CastlingRights,
) -> bool {
    &&& loaded(BoardView::empty(), text, chess_bounds(), after)
    &&& after.wf()
    &&& whole.wf()
    &&& split(text, ' ')[0] == rows_text(whole, 8)
    &&& (split(text, ' ')[1] == seq!['w'] || split(text, ' ')[1] == seq!['b'])
    &&& split(text, ' ')[2] == rights_text(rights)
    &&& (rights.white_king_side ==> pair_stands(after, Team::White, true))
    &&& (rights.white_queen_side ==> pair_stands(after, Team::White, false))
    &&& (rights.black_king_side ==> pair_stands(after, Team::Black, true))
    &&& (rights.black_queen_side ==> pair_stands(after, Team::Black, false))
    &&& (split(text, ' ')[3] == seq!['-'] || (named_square(split(text, ' ')[3]) matches Some(
        square,
    ) && match after.moving_team {
        Team::White => 40 <= square < 48 && after.piece_at((square - 8) as u16) == Some(PAWN),
        Team::Black => 16 <= square < 24 && after.piece_at((square + 8) as u16) == Some(PAWN),
    }))
}

/// What is written of the position that was read from a text.
pub open spec fn written_again(text: Seq<char>, after: BoardView) -> Seq<char> {
    position_text(
        after,
        en_passant_record(split(text, ' ')[3], after.moving_team, chess_bounds()),
        chess_bounds(),
    )
}

/// A position that was read from a text as positions are written is
/// written with the first four fields of the text: the rows, the side to
/// move, the rights to castle and the en passant square.
pub proof fn lemma_fields_come_back(
    text: Seq<char>,
    after: BoardView,
    whole: BoardView,
    rights: CastlingRights,
)
    requires
        read_as_written(text, after, whole, rights),
    ensures
        split(written_again(text, after), ' ').take(4) == split(text, ' ').take(4),
{
    let bounds = chess_bounds();
    let fields = split(text, ' ');
    let last = en_passant_record(fields[3], after.moving_team, bounds);
    lemma_written_rows_read(whole);
    lemma_same_rows(after, whole, 8);
    lemma_side_comes_back(BoardView::empty(), text, after);
    lemma_rights_come_back(BoardView::empty(), text, after, rights);
    lemma_en_passant_comes_back(after, fields[3]);
    lemma_rows_no_blank(after, 8);
    lemma_rights_letters(rights);
    if fields[3] != seq!['-'] {
        lemma_name_of_named(fields[3]);
    }
    let rows = rows_text(after, 8);
    let side = side_char(after.moving_team);
    let castling = rights_text(castling_rights(after, bounds));
    let passed = en_passant_text(after, last);
    assert(rows == fields[0]);
    assert(seq![side] == fields[1]);
    assert(castling == fields[2]);
    assert(passed == fields[3]);
    assert forall|i: int| 0 <= i < castling.len() implies castling[i] != ' ' by {}
    assert forall|i: int| 0 <= i < passed.len() implies passed[i] != ' ' by {}
    lemma_fields_split(rows, side, castling, passed);
    assert(split(position_text(after, last, bounds), ' ').take(4) =~= fields.take(4));
}

/// Texts as positions are written that differ in one of their first four
/// fields are written again as different texts.
pub proof fn lemma_texts_stay_apart(
    text: Seq<char>,
    after: BoardView,
    whole: BoardView,
    rights: CastlingRights,
    other: Seq<char>,
    other_after: BoardView,
    other_whole: BoardView,
    other_rights: CastlingRights,
)
    requires
        read_as_written(text, after, whole, rights),
        read_as_written(other, other_after, other_whole, other_rights),
        split(text, ' ').take(4) != split(other, ' ').take(4),
    ensures
        written_again(text, after) != written_again(other, other_after),
{
    lemma_fields_come_back(text, after, whole, rights);
    lemma_fields_come_back(other, other_after, other_whole, other_rights);
}

} // verus!
