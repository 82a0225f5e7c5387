//! Suites of positions with the numbers of ways to play from them, for
//! checking the counting of positions.
use vstd::prelude::*;
use crate::game::text::{chars_of, number_upto, parse_decimal, parts_view, split, split_at,
    text_of};

verus! {

/// A position, and for the depths 1, 2, 3 and so on the number of ways to
/// play that many plies from it.
#[derive(Debug)]
pub struct Position {
    pub pos: String,
    pub nodes: Vec<u32>,
}

/// The number that a text stands for, if it stands for one that fits: one
/// digit or more, with or without a plus sign before them.
pub open spec fn number_of(text: Seq<char>) -> Option<u32> {
    match number_upto(text, u32::MAX as nat) {
        Some(n) => Some(n as u32),
        None => None,
    }
}

/// The numbers that the texts stand for, if each stands for one.
pub open spec fn numbers_of(texts: Seq<Seq<char>>) -> Option<Seq<u32>>
    decreases texts.len(),
{
    if texts.len() == 0 {
        Some(Seq::empty())
    } else {
        match (numbers_of(texts.drop_last()), number_of(texts.last())) {
            (Some(before), Some(last)) => Some(before.push(last)),
            _ => None,
        }
    }
}

/// The number that a text stands for, if it stands for one that fits.
pub fn parse_number(text: &Vec<char>) -> (r: Option<u32>)
    ensures
        r == number_of(text@),
{
    match parse_decimal(text, 0xffff_ffff) {
        Some(n) => Some(n as u32),
        None => None,
    }
}

/// What one line of a suite holds, if its numbers are numbers: the text of
/// a position, and after it, each behind a semicolon, the numbers.
pub open spec fn line_of(line: Seq<char>) -> Option<(Seq<char>, Seq<u32>)> {
    let parts = split(line, ';');
    match numbers_of(parts.skip(1)) {
        Some(nodes) => Some((parts[0], nodes)),
        None => None,
    }
}

/// What the lines hold, if the numbers of each are numbers.
pub open spec fn lines_of(lines: Seq<Seq<char>>) -> Option<Seq<(Seq<char>, Seq<u32>)>>
    decreases lines.len(),
{
    if lines.len() == 0 {
        Some(Seq::empty())
    } else {
        match (lines_of(lines.drop_last()), line_of(lines.last())) {
            (Some(before), Some(last)) => Some(before.push(last)),
            _ => None,
        }
    }
}

/// What a suite holds, line by line.
pub open spec fn suite_of(text: Seq<char>) -> Option<Seq<(Seq<char>, Seq<u32>)>> {
    lines_of(split(text, '\n'))
}

/// The positions as mathematical values.
pub open spec fn positions_view(positions: Seq<Position>) -> Seq<(Seq<char>, Seq<u32>)> {
    Seq::new(positions.len(), |i: int| (positions[i].pos@, positions[i].nodes@))
}

/// A text is split into at least one part.
pub proof fn lemma_split_some(text: Seq<char>, sep: char)
    ensures
        split(text, sep).len() >= 1,
    decreases text.len(),
{
    crate::game::text::lemma_first_of(text, sep);
    let cut = crate::game::text::first_of(text, sep);
    if cut < text.len() {
        lemma_split_some(text.skip(cut + 1), sep);
    }
}

/// Lines of which one holds something that is no number hold nothing as a
/// whole.
proof fn lemma_lines_fail(lines: Seq<Seq<char>>, upto: int)
    requires
        0 <= upto <= lines.len(),
        lines_of(lines.take(upto)).is_none(),
    ensures
        lines_of(lines).is_none(),
    decreases lines.len() - upto,
{
    if upto < lines.len() {
        assert(lines.take(upto + 1).drop_last() =~= lines.take(upto));
        lemma_lines_fail(lines, upto + 1);
    } else {
        assert(lines.take(upto) =~= lines);
    }
}

/// Texts of which one is no number hold no numbers as a whole.
proof fn lemma_numbers_fail(texts: Seq<Seq<char>>, upto: int)
    requires
        0 <= upto <= texts.len(),
        numbers_of(texts.take(upto)).is_none(),
    ensures
        numbers_of(texts).is_none(),
    decreases texts.len() - upto,
{
    if upto < texts.len() {
        assert(texts.take(upto + 1).drop_last() =~= texts.take(upto));
        lemma_numbers_fail(texts, upto + 1);
    } else {
        assert(texts.take(upto) =~= texts);
    }
}

/// What one line of a suite holds, if its numbers are numbers.
fn parse_line(line: &Vec<char>) -> (r: Option<Position>)
    ensures
        match r {
            Some(position) => line_of(line@) == Some((position.pos@, position.nodes@)),
            None => line_of(line@).is_none(),
        },
{
    let parts = split_at(line, ';');
    let ghost texts = split(line@, ';');
    proof {
        lemma_split_some(line@, ';');
        assert(parts_view(parts@).len() == parts@.len());
        assert(parts_view(parts@)[0] == parts[0]@);
    }
    let mut nodes: Vec<u32> = Vec::new();
    let mut at: usize = 1;
    proof {
        assert(texts.skip(1).take(0) =~= Seq::<Seq<char>>::empty());
    }
    while at < parts.len()
        invariant
            1 <= at <= parts@.len(),
            texts == parts_view(parts@),
            texts == split(line@, ';'),
            texts.len() == parts@.len(),
            numbers_of(texts.skip(1).take(at - 1)) == Some(nodes@),
        decreases parts@.len() - at,
    {
        proof {
            assert(texts.skip(1).take(at as int).drop_last() =~= texts.skip(1).take(at - 1));
            assert(texts.skip(1).take(at as int).last() == parts[at as int]@);
        }
        match parse_number(&parts[at]) {
            Some(number) => {
                nodes.push(number);
            },
            None => {
                proof {
                    lemma_numbers_fail(texts.skip(1), at as int);
                }
                return None;
            },
        }
        at = at + 1;
    }
    proof {
        assert(texts.skip(1).take(at - 1) =~= texts.skip(1));
    }
    Some(Position { pos: text_of(&parts[0]), nodes })
}

/// Reads a suite: one position on each line, and after it, each behind a
/// semicolon, the numbers for the depths 1, 2, 3 and so on. Nothing comes
/// back where something that should be a number is none.
pub fn parse_suite(positions: &str) -> (r: Option<Vec<Position>>)
    ensures
        match r {
            Some(out) => suite_of(positions@) == Some(positions_view(out@)),
            None => suite_of(positions@).is_none(),
        },
{
    let text = chars_of(positions);
    let lines = split_at(&text, '\n');
    let ghost texts = split(positions@, '\n');
    let mut out: Vec<Position> = Vec::new();
    let mut at: usize = 0;
    proof {
        assert(parts_view(lines@).len() == lines@.len());
        assert(texts.take(0) =~= Seq::<Seq<char>>::empty());
        assert(positions_view(out@) =~= Seq::<(Seq<char>, Seq<u32>)>::empty());
    }
    while at < lines.len()
        invariant
            at <= lines@.len(),
            out@.len() == at,
            texts == parts_view(lines@),
            texts == split(positions@, '\n'),
            texts.len() == lines@.len(),
            lines_of(texts.take(at as int)) == Some(positions_view(out@)),
        decreases lines@.len() - at,
    {
        proof {
            assert(texts.take(at + 1).drop_last() =~= texts.take(at as int));
            assert(texts.take(at + 1).last() == lines[at as int]@);
        }
        let ghost before = out@;
        match parse_line(&lines[at]) {
            Some(position) => {
                out.push(position);
                proof {
                    assert(positions_view(out@) =~= positions_view(before).push(
                        (out@[at as int].pos@, out@[at as int].nodes@),
                    ));
                }
            },
            None => {
                proof {
                    lemma_lines_fail(texts, at + 1);
                }
                return None;
            },
        }
        at = at + 1;
    }
    proof {
        assert(texts.take(at as int) =~= texts);
    }
    Some(out)
}

} // verus!
