//! Wide integers as big integers of unbounded width, and back.
use vstd::prelude::*;
use crate::bitboard::sizedint::SizedInt;

verus! {

/// `num::BigUint`, an integer of unbounded width.
#[verifier::external_type_specification]
#[verifier::external_body]
pub struct ExBigUint(num::BigUint);

/// The bytes that a big integer holds, least significant first and without
/// zeros at the end; the one byte zero for the number zero.
pub uninterp spec fn big_bytes(n: num::BigUint) -> Seq<u8>;

/// The bytes without the zeros at their end; the one byte zero where
/// nothing is left.
pub open spec fn canonical(bytes: Seq<u8>) -> Seq<u8>
    decreases bytes.len(),
{
    if bytes.len() == 0 {
        seq![0u8]
    } else if bytes.last() == 0 {
        canonical(bytes.drop_last())
    } else {
        bytes
    }
}

/// `num::BigUint::from_bytes_le`: the big integer of the bytes, least
/// significant first. It holds those bytes, but for zeros at their end.
#[verifier::external_body]
pub(crate) fn big_from_bytes(bytes: &Vec<u8>) -> (r: num::BigUint)
    ensures
        big_bytes(r) == canonical(bytes@),
{
    num::BigUint::from_bytes_le(bytes)
}

/// `num::BigUint::to_bytes_le`: the bytes that the big integer holds.
#[verifier::external_body]
pub(crate) fn big_to_bytes(n: &num::BigUint) -> (r: Vec<u8>)
    ensures
        r@ == big_bytes(*n),
{
    n.to_bytes_le()
}

/// `num::bigint::ParseBigIntError`, the answer to a text that is no number.
#[verifier::external_type_specification]
#[verifier::external_body]
pub struct ExParseBigIntError(num::bigint::ParseBigIntError);

/// The bytes of the number that a text denotes in a radix, least
/// significant first, as `num::BigUint` reads texts; nothing for a text
/// that it refuses.
pub uninterp spec fn big_parsed(text: Seq<char>, radix: u32) -> Option<Seq<u8>>;

/// `num::Num::from_str_radix` of `num::BigUint`: the big integer that the
/// text denotes in the radix, or the refusal of the text. The radix lies
/// between 2 and 36; whether the text is taken, and for which number,
/// depends on the text and the radix alone.
#[verifier::external_body]
pub(crate) fn big_from_text(text: &str, radix: u32) -> (r: Result<
    num::BigUint,
    num::bigint::ParseBigIntError,
>)
    requires
        2 <= radix <= 36,
    ensures
        r.is_ok() == big_parsed(text@, radix).is_some(),
        r matches Ok(n) ==> big_parsed(text@, radix) == Some(big_bytes(n)),
{
    num::Num::from_str_radix(text, radix)
}

/// A text was no number in the radix asked for.
#[derive(Clone, Copy, Debug, PartialEq, Eq)]
pub struct NoNumber;

/// The byte at `at`; zero beyond the end.
pub open spec fn byte_at(bytes: Seq<u8>, at: int) -> u8 {
    if 0 <= at < bytes.len() {
        bytes[at]
    } else {
        0
    }
}

/// Byte `k` of a limb, counted from the least significant.
pub open spec fn limb_byte(limb: u64, k: int) -> u8 {
    ((limb >> ((8 * k) as u64)) & 0xff) as u8
}

/// The limb of the first `count` of eight bytes, least significant first.
pub open spec fn joined_bytes(bytes: Seq<u8>, from: int, count: int) -> u64
    decreases count,
{
    if count <= 0 {
        0
    } else {
        joined_bytes(bytes, from, count - 1) | ((byte_at(bytes, from + count - 1) as u64) << ((8
            * (count - 1)) as u64))
    }
}

/// The limb that has `i` limbs below it, joined from its eight bytes.
pub open spec fn limb_from(bytes: Seq<u8>, i: int) -> u64 {
    joined_bytes(bytes, 8 * i, 8)
}

/// The bytes of the limbs, most significant limb first, as bytes with the
/// least significant first.
pub open spec fn le_bytes(limbs: Seq<u64>) -> Seq<u8> {
    Seq::new(8 * limbs.len(), |j: int| limb_byte(limbs[limbs.len() - 1 - j / 8], j % 8))
}

/// Bytes that are cut off where only zeros follow are read as the same
/// bytes.
pub proof fn lemma_canonical(bytes: Seq<u8>, at: int)
    ensures
        byte_at(canonical(bytes), at) == byte_at(bytes, at),
    decreases bytes.len(),
{
    if bytes.len() > 0 && bytes.last() == 0 {
        lemma_canonical(bytes.drop_last(), at);
    }
}

/// Bytes that read the same join to the same limb.
pub proof fn lemma_joined_same(a: Seq<u8>, b: Seq<u8>, from: int, count: int)
    requires
        forall|at: int| byte_at(a, at) == byte_at(b, at),
    ensures
        joined_bytes(a, from, count) == joined_bytes(b, from, count),
    decreases count,
{
    if count > 0 {
        lemma_joined_same(a, b, from, count - 1);
    }
}

/// The eight bytes of a limb join to the limb.
pub proof fn lemma_limb_bytes(limb: u64)
    ensures
        ((limb_byte(limb, 0) as u64) | ((limb_byte(limb, 1) as u64) << 8) | ((limb_byte(
            limb,
            2,
        ) as u64) << 16) | ((limb_byte(limb, 3) as u64) << 24) | ((limb_byte(limb, 4) as u64)
            << 32) | ((limb_byte(limb, 5) as u64) << 40) | ((limb_byte(limb, 6) as u64) << 48) | ((
        limb_byte(limb, 7) as u64) << 56)) == limb,
{
    assert((((((limb >> 0) & 0xff) as u8) as u64) | (((((limb >> 8) & 0xff) as u8) as u64) << 8)
        | (((((limb >> 16) & 0xff) as u8) as u64) << 16) | (((((limb >> 24) & 0xff) as u8) as u64)
        << 24) | (((((limb >> 32) & 0xff) as u8) as u64) << 32) | (((((limb >> 40)
        & 0xff) as u8) as u64) << 40) | (((((limb >> 48) & 0xff) as u8) as u64) << 48) | (((((limb
        >> 56) & 0xff) as u8) as u64) << 56)) == limb) by (bit_vector);
}

/// The bytes of limbs that were taken apart join to the limbs again.
pub proof fn lemma_le_bytes_joined(limbs: Seq<u64>, i: int)
    requires
        0 <= i < limbs.len(),
    ensures
        joined_bytes(le_bytes(limbs), 8 * i, 8) == limbs[limbs.len() - 1 - i],
{
    let bytes = le_bytes(limbs);
    let limb = limbs[limbs.len() - 1 - i];
    assert forall|k: int| 0 <= k < 8 implies byte_at(bytes, 8 * i + k) == limb_byte(limb, k) by {
        assert((8 * i + k) / 8 == i);
        assert((8 * i + k) % 8 == k);
    }
    reveal_with_fuel(joined_bytes, 9);
    lemma_limb_bytes(limb);
    assert(0u64 | (limb_byte(limb, 0) as u64) << 0 == limb_byte(limb, 0) as u64) by (bit_vector);
}

/// A wide integer that is made a big integer and made a wide integer again
/// is the same: the bytes that the big integer keeps of it join to its
/// limbs.
pub proof fn lemma_biguint_round_trip(limbs: Seq<u64>, i: int)
    requires
        0 <= i < limbs.len(),
    ensures
        limb_from(canonical(le_bytes(limbs)), i) == limbs[limbs.len() - 1 - i],
{
    assert forall|at: int|
        byte_at(canonical(le_bytes(limbs)), at) == byte_at(le_bytes(limbs), at) by {
        lemma_canonical(le_bytes(limbs), at);
    }
    lemma_joined_same(canonical(le_bytes(limbs)), le_bytes(limbs), 8 * i, 8);
    lemma_le_bytes_joined(limbs, i);
}

impl<const T: usize> SizedInt<T> {
    /// The number as a big integer: it holds the bytes of the limbs, least
    /// significant first, but for zeros at their end.
    pub fn to_biguint(&self) -> (r: num::BigUint)
        requires
            8 * T <= usize::MAX,
        ensures
            big_bytes(r) == canonical(le_bytes(self.0@)),
    {
        let mut bytes: Vec<u8> = Vec::new();
        let mut done: usize = 0;
        while done < T
            invariant
                done <= T,
                8 * T <= usize::MAX,
                bytes@.len() == 8 * done,
                forall|j: int| 0 <= j < 8 * done ==> bytes@[j] == le_bytes(self.0@)[j],
            decreases T - done,
        {
            let limb = self.0[T - 1 - done];
            let mut k: usize = 0;
            while k < 8
                invariant
                    k <= 8,
                    done < T,
                    8 * T <= usize::MAX,
                    limb == self.0[T - 1 - done],
                    bytes@.len() == 8 * done + k,
                    forall|j: int| 0 <= j < 8 * done + k ==> bytes@[j] == le_bytes(self.0@)[j],
                decreases 8 - k,
            {
                let byte = ((limb >> ((8 * k) as u64)) & 0xff) as u8;
                proof {
                    assert((8 * done + k) / 8 == done);
                    assert((8 * done + k) % 8 == k);
                }
                bytes.push(byte);
                k = k + 1;
            }
            done = done + 1;
        }
        proof {
            assert(bytes@ =~= le_bytes(self.0@));
        }
        big_from_bytes(&bytes)
    }

    /// The big integer as a number of this width: its `8 * T` least
    /// significant bytes, joined to limbs; what lies above is lost.
    pub fn from_biguint(n: num::BigUint) -> (r: Self)
        requires
            8 * T <= usize::MAX,
        ensures
            forall|i: int|
                #![trigger limb_from(big_bytes(n), i)]
                0 <= i < T ==> r.0[T - 1 - i] == limb_from(big_bytes(n), i),
    {
        let bytes = big_to_bytes(&n);
        let mut limbs = [0u64;T];
        let mut done: usize = 0;
        while done < T
            invariant
                done <= T,
                8 * T <= usize::MAX,
                bytes@ == big_bytes(n),
                forall|i: int|
                    #![trigger limb_from(bytes@, i)]
                    0 <= i < done ==> limbs[T - 1 - i] == limb_from(bytes@, i),
            decreases T - done,
        {
            let mut limb: u64 = 0;
            let mut k: usize = 0;
            while k < 8
                invariant
                    k <= 8,
                    done < T,
                    8 * T <= usize::MAX,
                    limb == joined_bytes(bytes@, 8 * done, k as int),
                decreases 8 - k,
            {
                let at = 8 * done + k;
                let byte: u8 = if at < bytes.len() {
                    bytes[at]
                } else {
                    0
                };
                limb = limb | ((byte as u64) << ((8 * k) as u64));
                k = k + 1;
            }
            limbs[T - 1 - done] = limb;
            done = done + 1;
        }
        Self(limbs)
    }

    /// The number that the text denotes in the radix, as far as it fits:
    /// the `8 * T` least significant bytes of the big integer that the
    /// text denotes, joined to limbs. A text that denotes no number is
    /// refused.
    pub fn from_str_radix(src: &str, radix: u32) -> (r: Result<Self, NoNumber>)
        requires
            2 <= radix <= 36,
            8 * T <= usize::MAX,
        ensures
            r.is_ok() == big_parsed(src@, radix).is_some(),
            r matches Ok(x) ==> forall|i: int|
                #![trigger limb_from(big_parsed(src@, radix).unwrap(), i)]
                0 <= i < T ==> x.0[T - 1 - i] == limb_from(big_parsed(src@, radix).unwrap(), i),
    {
        match big_from_text(src, radix) {
            Ok(big) => Ok(Self::from_biguint(big)),
            Err(_) => Err(NoNumber),
        }
    }
}

} // verus!
