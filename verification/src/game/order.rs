//! Texts in the order of dictionaries, and lists of texts kept in that
//! order.
use vstd::prelude::*;
use vstd::relations::{sorted_by, total_ordering};
use vstd::seq_lib::{lemma_multiset_commutative, to_multiset_build};
use crate::game::text::parts_view;

verus! {

/// Whether `a` stands at or before `b`, going by what follows their first
/// `from` characters: the first character in which they differ decides, by
/// its number, and a text stands before those that it begins.
pub open spec fn leq_from(a: Seq<char>, b: Seq<char>, from: int) -> bool
    decreases a.len() - from,
{
    if from >= a.len() {
        true
    } else if from >= b.len() {
        false
    } else if a[from] != b[from] {
        a[from] < b[from]
    } else {
        leq_from(a, b, from + 1)
    }
}

/// Whether `a` stands at or before `b` in the order of dictionaries.
pub open spec fn text_leq(a: Seq<char>, b: Seq<char>) -> bool {
    leq_from(a, b, 0)
}

/// The order of dictionaries as a relation on texts.
pub open spec fn text_order() -> spec_fn(Seq<char>, Seq<char>) -> bool {
    |a: Seq<char>, b: Seq<char>| text_leq(a, b)
}

/// Of two texts one stands at or before the other.
pub proof fn lemma_leq_connected(a: Seq<char>, b: Seq<char>, from: int)
    requires
        0 <= from,
    ensures
        leq_from(a, b, from) || leq_from(b, a, from),
    decreases a.len() - from,
{
    if from < a.len() && from < b.len() {
        if a[from] == b[from] {
            lemma_leq_connected(a, b, from + 1);
        } else {
            assert(a[from] < b[from] || b[from] < a[from]);
        }
    }
}

/// What stands at or before a text that stands at or before a third
/// stands at or before the third.
pub proof fn lemma_leq_transitive(a: Seq<char>, b: Seq<char>, c: Seq<char>, from: int)
    requires
        0 <= from,
        leq_from(a, b, from),
        leq_from(b, c, from),
    ensures
        leq_from(a, c, from),
    decreases a.len() - from,
{
    if from < a.len() && a[from] == b[from] && b[from] == c[from] {
        lemma_leq_transitive(a, b, c, from + 1);
    }
}

/// Two texts that agree in their first `from` characters and of which each
/// stands at or before the other are the same.
pub proof fn lemma_leq_antisymmetric(a: Seq<char>, b: Seq<char>, from: int)
    requires
        0 <= from <= a.len(),
        from <= b.len(),
        forall|k: int| 0 <= k < from ==> a[k] == b[k],
        leq_from(a, b, from),
        leq_from(b, a, from),
    ensures
        a == b,
    decreases a.len() - from,
{
    if from < a.len() {
        lemma_leq_antisymmetric(a, b, from + 1);
    } else {
        assert(a =~= b);
    }
}

/// A text stands at or before itself.
pub proof fn lemma_leq_reflexive(a: Seq<char>, from: int)
    requires
        0 <= from,
    ensures
        leq_from(a, a, from),
    decreases a.len() - from,
{
    if from < a.len() {
        lemma_leq_reflexive(a, from + 1);
    }
}

/// The order of dictionaries puts any texts in one order: a list of texts
/// has one arrangement that is in order.
pub proof fn lemma_text_order()
    ensures
        total_ordering(text_order()),
{
    let order = text_order();
    assert forall|x: Seq<char>| #[trigger] order(x, x) by {
        lemma_leq_reflexive(x, 0);
    }
    assert forall|x: Seq<char>, y: Seq<char>| #[trigger] order(x, y) && #[trigger] order(y, x)
        implies x == y by {
        lemma_leq_antisymmetric(x, y, 0);
    }
    assert forall|x: Seq<char>, y: Seq<char>, z: Seq<char>| #[trigger]
        order(x, y) && #[trigger] order(y, z) implies order(x, z) by {
        lemma_leq_transitive(x, y, z, 0);
    }
    assert forall|x: Seq<char>, y: Seq<char>| #[trigger] order(x, y) || #[trigger] order(y, x) by {
        lemma_leq_connected(x, y, 0);
    }
}

/// Whether `a` stands at or before `b` in the order of dictionaries.
pub fn comes_first(a: &Vec<char>, b: &Vec<char>) -> (r: bool)
    ensures
        r == text_leq(a@, b@),
{
    let mut at: usize = 0;
    while at < a.len()
        invariant
            at <= a@.len(),
            text_leq(a@, b@) == leq_from(a@, b@, at as int),
        decreases a@.len() - at,
    {
        if at >= b.len() {
            return false;
        }
        if a[at] != b[at] {
            return a[at] < b[at];
        }
        at = at + 1;
    }
    true
}

/// A list in order with one more text put in its place is in order, and
/// holds what it held and the text.
pub proof fn lemma_insert_in_order(texts: Seq<Seq<char>>, at: int, text: Seq<char>)
    requires
        sorted_by(texts, text_order()),
        0 <= at <= texts.len(),
        at > 0 ==> text_leq(texts[at - 1], text),
        forall|j: int| at <= j < texts.len() ==> !text_leq(#[trigger] texts[j], text),
    ensures
        sorted_by(texts.insert(at, text), text_order()),
        texts.insert(at, text).to_multiset() == texts.to_multiset().insert(text),
{
    let order = text_order();
    let more = texts.insert(at, text);
    assert forall|i: int, j: int| 0 <= i < j < more.len() implies #[trigger] order(
        more[i],
        more[j],
    ) by {
        if i == at {
            assert(more[j] == texts[j - 1]);
            lemma_leq_connected(texts[j - 1], text, 0);
        } else if j == at {
            assert(more[i] == texts[i]);
            if i < at - 1 {
                assert(order(texts[i], texts[at - 1]));
                lemma_leq_transitive(texts[i], texts[at - 1], text, 0);
            }
        } else {
            let from = if i < at {
                i
            } else {
                i - 1
            };
            let to = if j < at {
                j
            } else {
                j - 1
            };
            assert(more[i] == texts[from] && more[j] == texts[to]);
            assert(order(texts[from], texts[to]));
        }
    }
    assert(more =~= texts.take(at).push(text) + texts.skip(at));
    assert(texts =~= texts.take(at) + texts.skip(at));
    lemma_multiset_commutative(texts.take(at).push(text), texts.skip(at));
    lemma_multiset_commutative(texts.take(at), texts.skip(at));
    to_multiset_build(texts.take(at), text);
    assert(more.to_multiset() =~= texts.to_multiset().insert(text));
}

/// Puts a text into a list that is in order, behind the texts that stand
/// at or before it: the list is in order again, and holds what it held and
/// the text.
pub fn insert_text(rows: &mut Vec<Vec<char>>, text: Vec<char>)
    requires
        sorted_by(parts_view(old(rows)@), text_order()),
    ensures
        sorted_by(parts_view(final(rows)@), text_order()),
        parts_view(final(rows)@).to_multiset() == parts_view(old(rows)@).to_multiset().insert(
            text@,
        ),
        final(rows)@.len() == old(rows)@.len() + 1,
{
    let mut at: usize = rows.len();
    let mut searching = true;
    while searching && at > 0
        invariant
            at <= rows@.len(),
            *rows == *old(rows),
            forall|j: int| at <= j < rows@.len() ==> !text_leq(#[trigger] rows@[j]@, text@),
            !searching ==> at > 0 && text_leq(rows@[at - 1]@, text@),
        decreases at + (if searching { 1int } else { 0int }),
    {
        if comes_first(&rows[at - 1], &text) {
            searching = false;
        } else {
            at = at - 1;
        }
    }
    let ghost before = parts_view(rows@);
    proof {
        assert forall|j: int| at <= j < before.len() implies !text_leq(
            #[trigger] before[j],
            text@,
        ) by {
            assert(before[j] == rows@[j]@);
        }
        lemma_insert_in_order(before, at as int, text@);
    }
    let ghost line = text@;
    rows.insert(at, text);
    proof {
        assert(parts_view(rows@) =~= before.insert(at as int, line));
    }
}

} // verus!
