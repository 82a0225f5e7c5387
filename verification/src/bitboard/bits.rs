//! Facts about single bits of a 64-bit word, proved once and used wherever
//! a board is manipulated.
use vstd::prelude::*;
use vstd::std_specs::bits::u64_trailing_zeros;
use vstd::std_specs::bits::u64_leading_zeros;
use vstd::std_specs::bits::axiom_u64_trailing_zeros;
use vstd::std_specs::bits::axiom_u64_leading_zeros;

verus! {

/// Whether bit `i` of the word `x` is set.
pub open spec fn bit(x: u64, i: u64) -> bool {
    (x >> i) & 1 == 1
}

/// The word whose only set bit is bit `i`.
pub open spec fn single(i: u64) -> u64 {
    1u64 << i
}

/// The word whose set bits are exactly `start .. start + len`.
pub open spec fn span(start: u64, len: u64) -> u64 {
    (((1u64 << len) - 1) as u64) << start
}

/// The word `x` with its lowest set bit cleared.
pub open spec fn drop_lowest(x: u64) -> u64 {
    x & ((x - 1) as u64)
}

/// The bits of words that are or-ed, and-ed, xor-ed or flipped.
pub proof fn lemma_bit_logic(x: u64, y: u64, i: u64)
    by (bit_vector)
    requires
        i < 64,
    ensures
        bit(x | y, i) == (bit(x, i) || bit(y, i)),
        bit(x & y, i) == (bit(x, i) && bit(y, i)),
        bit(x ^ y, i) == (bit(x, i) != bit(y, i)),
        bit(!x, i) == !bit(x, i),
        bit(x & !y, i) == (bit(x, i) && !bit(y, i)),
        !bit(0u64, i),
        bit(x, i) ==> x != 0,
{
}

/// The word of one bit has that bit and no other.
pub proof fn lemma_bit_single(s: u64, i: u64)
    by (bit_vector)
    requires
        s < 64,
        i < 64,
    ensures
        bit(single(s), i) == (i == s),
        single(s) != 0,
{
}

/// The bits of a word that is shifted up.
pub proof fn lemma_bit_shl(x: u64, k: u64, i: u64)
    by (bit_vector)
    requires
        k < 64,
        i < 64,
    ensures
        bit(x << k, i) == (i >= k && bit(x, (i - k) as u64)),
{
}

/// The bits of a word that is shifted down.
pub proof fn lemma_bit_shr(x: u64, k: u64, i: u64)
    by (bit_vector)
    requires
        k < 64,
        i < 64,
    ensures
        bit(x >> k, i) == (i + k < 64 && bit(x, (i + k) as u64)),
{
}

/// The bits of a run of set bits.
pub proof fn lemma_bit_span(start: u64, len: u64, i: u64)
    by (bit_vector)
    requires
        len < 64,
        start < 64,
        i < 64,
    ensures
        bit(span(start, len), i) == (start <= i && i < start + len),
        (1u64 << len) >= 1,
{
}

/// Clearing the lowest set bit removes exactly that bit and makes the word
/// smaller.
pub proof fn lemma_bit_drop_lowest(x: u64, low: u64, i: u64)
    by (bit_vector)
    requires
        low < 64,
        i < 64,
        bit(x, low),
        x << ((64 - low) as u64) == 0,
    ensures
        x >= 1,
        drop_lowest(x) < x,
        bit(drop_lowest(x), i) == (bit(x, i) && i != low),
{
}

/// The lowest set bit of a non-zero word.
pub open spec fn lowest(x: u64) -> u64 {
    u64_trailing_zeros(x) as u64
}

/// The highest set bit of a non-zero word.
pub open spec fn highest(x: u64) -> u64 {
    (63 - u64_leading_zeros(x)) as u64
}

/// The lowest set bit of a word that is not zero is set, and no bit below
/// it is.
pub proof fn lemma_lowest(x: u64)
    requires
        x != 0,
    ensures
        lowest(x) < 64,
        bit(x, lowest(x)),
        x << ((64 - lowest(x)) as u64) == 0,
        forall|j: u64| j < lowest(x) ==> !#[trigger] bit(x, j),
{
    axiom_u64_trailing_zeros(x);
    let t = u64_trailing_zeros(x);
    assert forall|j: u64| j < lowest(x) implies !#[trigger] bit(x, j) by {
        assert((x >> j) & 1u64 == 0u64);
    }
}

/// The highest set bit of a word that is not zero is set, and no bit above
/// it is.
pub proof fn lemma_highest(x: u64)
    requires
        x != 0,
    ensures
        highest(x) < 64,
        bit(x, highest(x)),
        forall|j: u64| highest(x) < j < 64 ==> !#[trigger] bit(x, j),
        highest(x) < 63 ==> x >> ((highest(x) + 1) as u64) == 0,
{
    axiom_u64_leading_zeros(x);
    let l = u64_leading_zeros(x);
    let h = highest(x);
    assert(h == 63 - l);
    if h < 63 {
        let up = (64 - l) as u64;
        assert(up == h + 1);
        assert(x >> up == 0);
    }
    let y = (x >> h) & 1u64;
    assert(y != 0);
    assert(y == 1) by (bit_vector)
        requires
            y == (x >> h) & 1u64,
            y != 0,
    ;
    assert forall|j: u64| highest(x) < j < 64 implies !#[trigger] bit(x, j) by {
        assert((x >> j) & 1u64 == 0u64);
    }
}

/// Two words with the same bits are the same word.
pub proof fn lemma_bits_equal(x: u64, y: u64)
    requires
        forall|i: u64| i < 64 ==> bit(x, i) == bit(y, i),
    ensures
        x == y,
{
    let z = x ^ y;
    if z != 0 {
        lemma_lowest(z);
        lemma_bit_logic(x, y, lowest(z));
    }
    assert(x ^ y == 0 ==> x == y) by (bit_vector);
}

/// A word without set bits is zero.
pub proof fn lemma_bits_zero(x: u64)
    requires
        forall|i: u64| i < 64 ==> !bit(x, i),
    ensures
        x == 0,
{
    assert forall|i: u64| i < 64 implies bit(x, i) == bit(0u64, i) by {
        lemma_bit_logic(x, x, i);
    }
    lemma_bits_equal(x, 0);
}

/// Or-ing does not depend on the order of the words.
pub proof fn lemma_or_commutes(x: u64, y: u64)
    by (bit_vector)
    ensures
        x | y == y | x,
{
}

/// A word with a bit above `s` is larger than the single bit `s`; a word
/// without bits above `h`, which lies below `s`, is smaller.
pub proof fn lemma_single_between(x: u64, s: u64, other: u64)
    by (bit_vector)
    requires
        s < 64,
        other < 64,
    ensures
        bit(x, other) && s < other ==> single(s) < x,
        other < s && x >> ((other + 1) as u64) == 0 ==> x < single(s),
{
}

/// The bits of half a word are the bits of the word, each one place
/// lower.
pub proof fn lemma_bit_halve(x: u64, i: u64)
    by (bit_vector)
    requires
        i < 64,
    ensures
        bit(x, 0) == (x % 2 == 1),
        i < 63 ==> bit(x / 2, i) == bit(x, (i + 1) as u64),
        !bit(x / 2, 63),
{
}

} // verus!
