//! Text as sequences of characters: splitting it at a separator, and
//! writing it out.
use vstd::prelude::*;
use vstd::string::StrSliceExecFns;

verus! {

/// The characters of a text.
pub fn chars_of(text: &str) -> (chars: Vec<char>)
    ensures
        chars@ == text@,
{
    let count = text.unicode_len();
    let mut chars: Vec<char> = Vec::with_capacity(count);
    let mut at: usize = 0;
    while at < count
        invariant
            at <= count,
            count == text@.len(),
            chars@ == text@.take(at as int),
        decreases count - at,
    {
        chars.push(text.get_char(at));
        proof {
            assert(text@.take(at + 1) =~= text@.take(at as int).push(text@[at as int]));
        }
        at = at + 1;
    }
    proof {
        assert(text@.take(count as int) =~= text@);
    }
    chars
}

/// The text that is made of the given characters.
pub fn text_of(chars: &Vec<char>) -> (text: String)
    ensures
        text@ == chars@,
{
    let mut text = String::new();
    let mut at: usize = 0;
    while at < chars.len()
        invariant
            at <= chars@.len(),
            text@ == chars@.take(at as int),
        decreases chars@.len() - at,
    {
        text.push(chars[at]);
        proof {
            assert(chars@.take(at + 1) =~= chars@.take(at as int).push(chars@[at as int]));
        }
        at = at + 1;
    }
    proof {
        assert(chars@.take(at as int) =~= chars@);
    }
    text
}

/// Where in `text` the separator first stands; the length of `text` where
/// it stands nowhere.
pub open spec fn first_of(text: Seq<char>, sep: char) -> int
    decreases text.len(),
{
    if text.len() == 0 {
        0
    } else if text[0] == sep {
        0
    } else {
        1 + first_of(text.skip(1), sep)
    }
}

/// The parts of `text` between the separators: one part more than there are
/// separators, empty parts included.
pub open spec fn split(text: Seq<char>, sep: char) -> Seq<Seq<char>>
    decreases text.len(),
    via split_decreases
{
    let cut = first_of(text, sep);
    if cut >= text.len() {
        seq![text]
    } else {
        seq![text.take(cut)] + split(text.skip(cut + 1), sep)
    }
}

/// What is left after the first separator is shorter than the text.
#[via_fn]
proof fn split_decreases(text: Seq<char>, sep: char) {
    lemma_first_of(text, sep);
}

/// The first separator stands within the text or at its end, and nothing
/// before it is a separator.
pub proof fn lemma_first_of(text: Seq<char>, sep: char)
    ensures
        0 <= first_of(text, sep) <= text.len(),
        first_of(text, sep) < text.len() ==> text[first_of(text, sep)] == sep,
        forall|i: int| 0 <= i < first_of(text, sep) ==> text[i] != sep,
    decreases text.len(),
{
    if text.len() > 0 && text[0] != sep {
        lemma_first_of(text.skip(1), sep);
        assert forall|i: int| 0 <= i < first_of(text, sep) implies text[i] != sep by {
            if i > 0 {
                assert(text.skip(1)[i - 1] == text[i]);
            }
        }
    }
}

/// The first separator is the one before which none stands.
pub proof fn lemma_first_of_is(text: Seq<char>, sep: char, cut: int)
    requires
        0 <= cut <= text.len(),
        cut < text.len() ==> text[cut] == sep,
        forall|i: int| 0 <= i < cut ==> text[i] != sep,
    ensures
        first_of(text, sep) == cut,
{
    lemma_first_of(text, sep);
}

/// Whether `c` stands in `text`.
pub open spec fn has_char(text: Seq<char>, c: char) -> bool {
    exists|i: int| 0 <= i < text.len() && text[i] == c
}

/// Whether `c` stands in `text`.
pub fn contains_char(text: &Vec<char>, c: char) -> (r: bool)
    ensures
        r == has_char(text@, c),
{
    let mut at: usize = 0;
    while at < text.len()
        invariant
            at <= text@.len(),
            forall|i: int| 0 <= i < at ==> text@[i] != c,
        decreases text@.len() - at,
    {
        if text[at] == c {
            return true;
        }
        at = at + 1;
    }
    false
}

/// The views of the parts.
pub open spec fn parts_view(parts: Seq<Vec<char>>) -> Seq<Seq<char>> {
    Seq::new(parts.len(), |i: int| parts[i]@)
}

/// The parts of `text` between the separators.
pub fn split_at(text: &Vec<char>, sep: char) -> (parts: Vec<Vec<char>>)
    ensures
        parts_view(parts@) == split(text@, sep),
{
    let mut parts: Vec<Vec<char>> = Vec::new();
    let mut start: usize = 0;
    let mut done = false;
    proof {
        assert(text@.skip(0) =~= text@);
        assert(parts_view(parts@) + split(text@, sep) =~= split(text@, sep));
    }
    while !done
        invariant
            start <= text@.len(),
            !done ==> parts_view(parts@) + split(text@.skip(start as int), sep) == split(
                text@,
                sep,
            ),
            done ==> parts_view(parts@) == split(text@, sep),
        decreases text@.len() - start + (if done { 0int } else { 1int }),
    {
        let mut part: Vec<char> = Vec::new();
        let mut at: usize = start;
        while at < text.len() && text[at] != sep
            invariant
                start <= at <= text@.len(),
                part@ == text@.subrange(start as int, at as int),
                forall|i: int| start <= i < at ==> text@[i] != sep,
            decreases text@.len() - at,
        {
            part.push(text[at]);
            proof {
                assert(text@.subrange(start as int, at + 1) =~= text@.subrange(
                    start as int,
                    at as int,
                ).push(text@[at as int]));
            }
            at = at + 1;
        }
        proof {
            let rest = text@.skip(start as int);
            assert forall|i: int| 0 <= i < at - start implies rest[i] != sep by {
                assert(rest[i] == text@[start + i]);
            }
            lemma_first_of_is(rest, sep, at - start);
            assert(rest.take(at - start) =~= part@);
            if at < text@.len() {
                assert(rest.skip(at - start + 1) =~= text@.skip(at + 1));
            } else {
                assert(rest =~= part@);
            }
        }
        let ghost before = parts@;
        parts.push(part);
        proof {
            assert(parts_view(parts@) =~= parts_view(before) + seq![part@]);
        }
        if at < text.len() {
            proof {
                assert(parts_view(parts@) + split(text@.skip(at + 1), sep) =~= parts_view(before)
                    + split(text@.skip(start as int), sep));
            }
            start = at + 1;
        } else {
            proof {
                assert(parts_view(parts@) =~= parts_view(before) + split(
                    text@.skip(start as int),
                    sep,
                ));
            }
            done = true;
        }
    }
    parts
}

/// The digit for a number below ten.
pub open spec fn digit_char(n: int) -> char {
    ((('0' as u8) + n) as u8) as char
}

/// The number that a digit stands for.
pub open spec fn digit_of(c: char) -> Option<u16> {
    if '0' <= c <= '9' {
        Some(((c as u8) - ('0' as u8)) as u16)
    } else {
        None
    }
}

/// The number that a digit stands for.
pub fn to_digit(c: char) -> (r: Option<u16>)
    ensures
        r == digit_of(c),
{
    if '0' <= c && c <= '9' {
        Some(((c as u8) - 48u8) as u16)
    } else {
        None
    }
}

/// A number in digits, without zeros before it.
pub open spec fn decimal_text(n: nat) -> Seq<char>
    decreases n,
{
    if n < 10 {
        seq![digit_char(n as int)]
    } else {
        decimal_text(n / 10).push(digit_char((n % 10) as int))
    }
}

/// A number in digits, with a minus sign before it where it is below zero.
pub open spec fn signed_text(n: int) -> Seq<char> {
    if n < 0 {
        seq!['-'] + decimal_text((-n) as nat)
    } else {
        decimal_text(n as nat)
    }
}

/// Adds a number in digits to `out`.
pub fn push_decimal(out: &mut Vec<char>, n: u64)
    ensures
        final(out)@ == old(out)@ + decimal_text(n as nat),
    decreases n,
{
    if n >= 10 {
        push_decimal(out, n / 10);
    }
    out.push((48u8 + (n % 10) as u8) as char);
    proof {
        if n >= 10 {
            assert(out@ =~= old(out)@ + decimal_text(n as nat));
        } else {
            assert(out@ =~= old(out)@ + decimal_text(n as nat));
        }
    }
}

/// Adds a number in digits to `out`, with a minus sign before it where it
/// is below zero.
pub fn push_signed(out: &mut Vec<char>, n: i32)
    ensures
        final(out)@ == old(out)@ + signed_text(n as int),
{
    if n < 0 {
        out.push('-');
        let ghost signed = out@;
        push_decimal(out, (-(n as i64)) as u64);
        proof {
            assert(out@ =~= old(out)@ + signed_text(n as int));
        }
    } else {
        push_decimal(out, n as u64);
    }
}

/// Adds the characters of `more` to `out`.
pub fn push_text(out: &mut Vec<char>, more: &str)
    ensures
        final(out)@ == old(out)@ + more@,
{
    let mut chars = chars_of(more);
    out.append(&mut chars);
}

/// The number that the digits stand for.
pub open spec fn decimal_value(digits: Seq<char>) -> nat
    decreases digits.len(),
{
    if digits.len() == 0 {
        0
    } else {
        decimal_value(digits.drop_last()) * 10 + match digit_of(digits.last()) {
            Some(d) => d as nat,
            None => 0,
        }
    }
}

/// Whether every character is a digit.
pub open spec fn all_digits(text: Seq<char>) -> bool {
    forall|i: int| 0 <= i < text.len() ==> digit_of(#[trigger] text[i]).is_some()
}

/// The digits of a number text: the text without a plus sign at its start.
pub open spec fn digits_of(text: Seq<char>) -> Seq<char> {
    if text.len() > 0 && text[0] == '+' {
        text.skip(1)
    } else {
        text
    }
}

/// The number that a text stands for, if it stands for one that is not
/// above `limit`: one digit or more, with or without a plus sign before
/// them.
pub open spec fn number_upto(text: Seq<char>, limit: nat) -> Option<nat> {
    let digits = digits_of(text);
    if digits.len() > 0 && all_digits(digits) && decimal_value(digits) <= limit {
        Some(decimal_value(digits))
    } else {
        None
    }
}

/// More digits do not make a number smaller.
pub proof fn lemma_decimal_grows(digits: Seq<char>, upto: int)
    requires
        0 <= upto <= digits.len(),
    ensures
        decimal_value(digits.take(upto)) <= decimal_value(digits),
    decreases digits.len() - upto,
{
    if upto < digits.len() {
        lemma_decimal_grows(digits, upto + 1);
        assert(digits.take(upto + 1).drop_last() =~= digits.take(upto));
    } else {
        assert(digits.take(upto) =~= digits);
    }
}

/// The number that a text stands for, if it stands for one that is not
/// above `limit`.
pub fn parse_decimal(text: &Vec<char>, limit: u64) -> (r: Option<u64>)
    ensures
        match number_upto(text@, limit as nat) {
            Some(n) => r == Some(n as u64),
            None => r.is_none(),
        },
{
    let start: usize = if text.len() > 0 && text[0] == '+' {
        1
    } else {
        0
    };
    let ghost digits = digits_of(text@);
    proof {
        assert(digits =~= text@.skip(start as int));
    }
    if start >= text.len() {
        return None;
    }
    let mut value: u128 = 0;
    let mut at: usize = start;
    proof {
        assert(digits.take(0) =~= Seq::<char>::empty());
    }
    while at < text.len()
        invariant
            start <= at <= text@.len(),
            digits == text@.skip(start as int),
            digits == digits_of(text@),
            digits.len() > 0,
            all_digits(digits.take(at - start)),
            value == decimal_value(digits.take(at - start)),
            value <= limit,
        decreases text@.len() - at,
    {
        proof {
            assert(digits.take(at - start + 1).drop_last() =~= digits.take(at - start));
            assert(digits[at - start] == text@[at as int]);
        }
        match to_digit(text[at]) {
            Some(d) => {
                value = value * 10 + d as u128;
                proof {
                    assert(value == decimal_value(digits.take(at - start + 1)));
                    assert forall|i: int| 0 <= i < at - start + 1 implies digit_of(
                        #[trigger] digits.take(at - start + 1)[i],
                    ).is_some() by {
                        if i < at - start {
                            assert(digits.take(at - start)[i] == digits[i]);
                        }
                    }
                }
                if value > limit as u128 {
                    proof {
                        lemma_decimal_grows(digits, at - start + 1);
                    }
                    return None;
                }
            },
            None => {
                proof {
                    assert(digit_of(digits[at - start]).is_none());
                }
                return None;
            },
        }
        at = at + 1;
    }
    proof {
        assert(digits.take(at - start) =~= digits);
    }
    Some(value as u64)
}

} // verus!
