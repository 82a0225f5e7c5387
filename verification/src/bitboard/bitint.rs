//! Unsigned integers of a fixed width as rows of bits, whether they are
//! held in one machine word or in several limbs.
use vstd::prelude::*;
use crate::bitboard::bits::{bit, lemma_bit_logic, lemma_bit_shl, lemma_bit_shr, lemma_bit_single,
    lemma_bits_equal, lemma_bits_zero};
use crate::bitboard::sizedint::{SizedInt, limb_at, shl_limb, shr_limb};

verus! {

/// An unsigned integer of a fixed width: its bits can be told apart,
/// combined and moved, and two integers with the same bits are the same.
pub trait BitInt: Copy {
    /// The number of bits.
    spec fn width() -> nat;

    /// Whether bit `i` is set, bit 0 being the least significant.
    spec fn bit_at(self, i: nat) -> bool;

    /// Integers with the same bits are the same.
    proof fn lemma_same_bits(a: Self, b: Self)
        requires
            forall|i: nat| i < Self::width() ==> a.bit_at(i) == b.bit_at(i),
        ensures
            a == b,
    ;

    /// The integer without set bits.
    fn none() -> (r: Self)
        ensures
            forall|i: nat| i < Self::width() ==> !r.bit_at(i),
    ;

    /// The integer whose only set bit is bit `index`.
    fn only(index: u32) -> (r: Self)
        requires
            index < Self::width(),
        ensures
            forall|i: nat| i < Self::width() ==> r.bit_at(i) == (i == index),
    ;

    /// The bits that are set in both.
    fn both(self, other: Self) -> (r: Self)
        ensures
            forall|i: nat| i < Self::width() ==> r.bit_at(i) == (self.bit_at(i) && other.bit_at(i)),
    ;

    /// The bits that are set in either.
    fn either(self, other: Self) -> (r: Self)
        ensures
            forall|i: nat| i < Self::width() ==> r.bit_at(i) == (self.bit_at(i) || other.bit_at(i)),
    ;

    /// The bits that are set in one but not in both.
    fn differing(self, other: Self) -> (r: Self)
        ensures
            forall|i: nat| i < Self::width() ==> r.bit_at(i) == (self.bit_at(i) != other.bit_at(i)),
    ;

    /// The bits that are not set.
    fn flipped(self) -> (r: Self)
        ensures
            forall|i: nat| i < Self::width() ==> r.bit_at(i) == !self.bit_at(i),
    ;

    /// The bits moved `shift` places up; what leaves at the top is lost.
    fn up(self, shift: u32) -> (r: Self)
        ensures
            forall|i: nat|
                i < Self::width() ==> r.bit_at(i) == (i >= shift && self.bit_at((i - shift) as nat)),
    ;

    /// The bits moved `shift` places down; what leaves at the bottom is
    /// lost.
    fn down(self, shift: u32) -> (r: Self)
        ensures
            forall|i: nat|
                i < Self::width() ==> r.bit_at(i) == (i + shift < Self::width() && self.bit_at(
                    (i + shift) as nat,
                )),
    ;

    /// Whether no bit is set.
    fn blank(self) -> (r: bool)
        ensures
            r == (forall|i: nat| i < Self::width() ==> !self.bit_at(i)),
    ;
}

impl BitInt for u64 {
    open spec fn width() -> nat {
        64
    }

    open spec fn bit_at(self, i: nat) -> bool {
        i < 64 && bit(self, i as u64)
    }

    proof fn lemma_same_bits(a: Self, b: Self) {
        assert forall|i: u64| i < 64 implies bit(a, i) == bit(b, i) by {
            assert(a.bit_at(i as nat) == b.bit_at(i as nat));
        }
        lemma_bits_equal(a, b);
    }

    fn none() -> (r: Self) {
        proof {
            assert forall|i: nat| i < 64 implies !0u64.bit_at(i) by {
                lemma_bit_logic(0, 0, i as u64);
            }
        }
        0
    }

    fn only(index: u32) -> (r: Self) {
        let r: u64 = 1u64 << (index as u64);
        proof {
            assert forall|i: nat| i < 64 implies r.bit_at(i) == (i == index) by {
                lemma_bit_single(index as u64, i as u64);
            }
        }
        r
    }

    fn both(self, other: Self) -> (r: Self) {
        let r: u64 = self & other;
        proof {
            assert forall|i: nat| i < 64 implies r.bit_at(i) == (self.bit_at(i)
                && other.bit_at(i)) by {
                lemma_bit_logic(self, other, i as u64);
            }
        }
        r
    }

    fn either(self, other: Self) -> (r: Self) {
        let r: u64 = self | other;
        proof {
            assert forall|i: nat| i < 64 implies r.bit_at(i) == (self.bit_at(i)
                || other.bit_at(i)) by {
                lemma_bit_logic(self, other, i as u64);
            }
        }
        r
    }

    fn differing(self, other: Self) -> (r: Self) {
        let r: u64 = self ^ other;
        proof {
            assert forall|i: nat| i < 64 implies r.bit_at(i) == (self.bit_at(i)
                != other.bit_at(i)) by {
                lemma_bit_logic(self, other, i as u64);
            }
        }
        r
    }

    fn flipped(self) -> (r: Self) {
        let r: u64 = !self;
        proof {
            assert forall|i: nat| i < 64 implies r.bit_at(i) == !self.bit_at(i) by {
                lemma_bit_logic(self, self, i as u64);
            }
        }
        r
    }

    fn up(self, shift: u32) -> (r: Self) {
        if shift >= 64 {
            proof {
                assert forall|i: nat| i < 64 implies !0u64.bit_at(i) by {
                    lemma_bit_logic(0, 0, i as u64);
                }
            }
            0
        } else {
            let r: u64 = self << (shift as u64);
            proof {
                assert forall|i: nat| i < 64 implies r.bit_at(i) == (i >= shift && self.bit_at(
                    (i - shift) as nat,
                )) by {
                    lemma_bit_shl(self, shift as u64, i as u64);
                }
            }
            r
        }
    }

    fn down(self, shift: u32) -> (r: Self) {
        if shift >= 64 {
            proof {
                assert forall|i: nat| i < 64 implies !0u64.bit_at(i) by {
                    lemma_bit_logic(0, 0, i as u64);
                }
            }
            0
        } else {
            let r: u64 = self >> (shift as u64);
            proof {
                assert forall|i: nat| i < 64 implies r.bit_at(i) == (i + shift < 64
                    && self.bit_at((i + shift) as nat)) by {
                    lemma_bit_shr(self, shift as u64, i as u64);
                }
            }
            r
        }
    }

    fn blank(self) -> (r: bool) {
        proof {
            if self == 0 {
                assert forall|i: nat| i < 64 implies !self.bit_at(i) by {
                    lemma_bit_logic(0, 0, i as u64);
                }
            }
            if forall|i: nat| i < 64 ==> !self.bit_at(i) {
                assert forall|i: u64| i < 64 implies !bit(self, i) by {
                    assert(!self.bit_at(i as nat));
                }
                lemma_bits_zero(self);
            }
        }
        self == 0
    }
}

/// Whether bit `i` of the limbs is set, bit 0 being the least significant
/// bit of the last limb.
pub open spec fn limbs_bit(limbs: Seq<u64>, i: int) -> bool {
    0 <= i < 64 * limbs.len() && bit(limbs[limbs.len() - 1 - i / 64], (i % 64) as u64)
}

/// The bits of a limb that takes in bits of its neighbour when the limbs
/// are moved up or down by some bits.
pub proof fn lemma_joined_bits(a: u64, b: u64, bits: u64, k: u64)
    by (bit_vector)
    requires
        0 < bits < 64,
        k < 64,
    ensures
        bit((a << bits) | (b >> ((64 - bits) as u64)), k) == (if k >= bits {
            bit(a, (k - bits) as u64)
        } else {
            bit(b, (64 - bits + k) as u64)
        }),
        bit((a >> bits) | (b << ((64 - bits) as u64)), k) == (if k + bits < 64 {
            bit(a, (k + bits) as u64)
        } else {
            bit(b, (k + bits - 64) as u64)
        }),
{
}

/// The bits of limbs that are moved up.
pub proof fn lemma_shl_bits(limbs: Seq<u64>, shifted: Seq<u64>, shift: nat, i: int)
    requires
        shifted.len() == limbs.len(),
        forall|j: int| 0 <= j < limbs.len() ==> shifted[j] == shl_limb(limbs, j, shift),
        0 <= i < 64 * limbs.len(),
    ensures
        limbs_bit(shifted, i) == (i >= shift && limbs_bit(limbs, i - shift)),
{
    let len = limbs.len() as int;
    let j = len - 1 - i / 64;
    let k = (i % 64) as u64;
    let whole = (shift / 64) as int;
    let bits = (shift % 64) as u64;
    let a = limb_at(limbs, j + whole);
    let b = limb_at(limbs, j + whole + 1);
    lemma_bit_logic(0, 0, k);
    if bits == 0 {
        if j + whole < len {
            assert((i - shift) / 64 == i / 64 - whole);
            assert((i - shift) % 64 == i % 64);
        }
    } else {
        lemma_joined_bits(a, b, bits, k);
        if k >= bits {
            lemma_bit_logic(0, 0, (k - bits) as u64);
            if j + whole < len {
                assert((i - shift) / 64 == i / 64 - whole);
                assert((i - shift) % 64 == k - bits);
            }
        } else {
            lemma_bit_logic(0, 0, (64 - bits + k) as u64);
            if j + whole + 1 < len {
                assert((i - shift) / 64 == i / 64 - whole - 1);
                assert((i - shift) % 64 == 64 - bits + k);
            }
        }
    }
}

/// The bits of limbs that are moved down.
pub proof fn lemma_shr_bits(limbs: Seq<u64>, shifted: Seq<u64>, shift: nat, i: int)
    requires
        shifted.len() == limbs.len(),
        forall|j: int| 0 <= j < limbs.len() ==> shifted[j] == shr_limb(limbs, j, shift),
        0 <= i < 64 * limbs.len(),
    ensures
        limbs_bit(shifted, i) == limbs_bit(limbs, i + shift),
{
    let len = limbs.len() as int;
    let j = len - 1 - i / 64;
    let k = (i % 64) as u64;
    let whole = (shift / 64) as int;
    let bits = (shift % 64) as u64;
    let a = limb_at(limbs, j - whole);
    let b = limb_at(limbs, j - whole - 1);
    lemma_bit_logic(0, 0, k);
    if bits == 0 {
        if j - whole >= 0 {
            assert((i + shift) / 64 == i / 64 + whole);
            assert((i + shift) % 64 == i % 64);
        }
    } else {
        lemma_joined_bits(a, b, bits, k);
        if k + bits < 64 {
            lemma_bit_logic(0, 0, (k + bits) as u64);
            if j - whole >= 0 {
                assert((i + shift) / 64 == i / 64 + whole);
                assert((i + shift) % 64 == k + bits);
            }
        } else {
            lemma_bit_logic(0, 0, (k + bits - 64) as u64);
            if j - whole - 1 >= 0 {
                assert((i + shift) / 64 == i / 64 + whole + 1);
                assert((i + shift) % 64 == k + bits - 64);
            }
        }
    }
}

impl<const T: usize> BitInt for SizedInt<T> {
    open spec fn width() -> nat {
        (64 * T) as nat
    }

    open spec fn bit_at(self, i: nat) -> bool {
        limbs_bit(self.0@, i as int)
    }

    proof fn lemma_same_bits(a: Self, b: Self) {
        assert forall|j: int| 0 <= j < T implies a.0[j] == b.0[j] by {
            assert forall|k: u64| k < 64 implies bit(a.0[j], k) == bit(b.0[j], k) by {
                let i = (64 * (T - 1 - j) + k) as nat;
                assert(i / 64 == (T - 1 - j) as nat);
                assert(i % 64 == k);
                assert(a.bit_at(i) == b.bit_at(i));
            }
            lemma_bits_equal(a.0[j], b.0[j]);
        }
        assert(a.0 =~= b.0);
    }

    fn none() -> (r: Self) {
        let r = SizedInt::zero();
        proof {
            assert forall|i: nat| i < Self::width() implies !r.bit_at(i) by {
                lemma_bit_logic(0, 0, (i % 64) as u64);
            }
        }
        r
    }

    fn only(index: u32) -> (r: Self) {
        let mut limbs = [0u64;T];
        let at = T - 1 - (index / 64) as usize;
        limbs[at] = 1u64 << ((index % 64) as u64);
        proof {
            assert forall|i: nat| i < Self::width() implies limbs_bit(limbs@, i as int) == (i
                == index) by {
                lemma_bit_logic(0, 0, (i % 64) as u64);
                lemma_bit_single((index % 64) as u64, (i % 64) as u64);
            }
        }
        SizedInt(limbs)
    }

    fn both(self, other: Self) -> (r: Self) {
        let r = self.bitand(other);
        proof {
            assert forall|i: nat| i < Self::width() implies r.bit_at(i) == (self.bit_at(i)
                && other.bit_at(i)) by {
                let j = T - 1 - i / 64;
                lemma_bit_logic(self.0[j], other.0[j], (i % 64) as u64);
            }
        }
        r
    }

    fn either(self, other: Self) -> (r: Self) {
        let r = self.bitor(other);
        proof {
            assert forall|i: nat| i < Self::width() implies r.bit_at(i) == (self.bit_at(i)
                || other.bit_at(i)) by {
                let j = T - 1 - i / 64;
                lemma_bit_logic(self.0[j], other.0[j], (i % 64) as u64);
            }
        }
        r
    }

    fn differing(self, other: Self) -> (r: Self) {
        let r = self.bitxor(other);
        proof {
            assert forall|i: nat| i < Self::width() implies r.bit_at(i) == (self.bit_at(i)
                != other.bit_at(i)) by {
                let j = T - 1 - i / 64;
                lemma_bit_logic(self.0[j], other.0[j], (i % 64) as u64);
            }
        }
        r
    }

    fn flipped(self) -> (r: Self) {
        let r = self.not();
        proof {
            assert forall|i: nat| i < Self::width() implies r.bit_at(i) == !self.bit_at(i) by {
                let j = T - 1 - i / 64;
                lemma_bit_logic(self.0[j], self.0[j], (i % 64) as u64);
            }
        }
        r
    }

    fn up(self, shift: u32) -> (r: Self) {
        let r = self.shl(shift);
        proof {
            assert forall|i: nat| i < Self::width() implies r.bit_at(i) == (i >= shift
                && self.bit_at((i - shift) as nat)) by {
                lemma_shl_bits(self.0@, r.0@, shift as nat, i as int);
            }
        }
        r
    }

    fn down(self, shift: u32) -> (r: Self) {
        let r = self.shr(shift);
        proof {
            assert forall|i: nat| i < Self::width() implies r.bit_at(i) == (i + shift
                < Self::width() && self.bit_at((i + shift) as nat)) by {
                lemma_shr_bits(self.0@, r.0@, shift as nat, i as int);
            }
        }
        r
    }

    fn blank(self) -> (r: bool) {
        let r = self.is_zero();
        proof {
            let none = SizedInt::<T>([0u64;T]);
            if forall|i: nat| i < Self::width() ==> !self.bit_at(i) {
                assert forall|i: nat| i < Self::width() implies self.bit_at(i) == none.bit_at(
                    i,
                ) by {
                    lemma_bit_logic(0, 0, (i % 64) as u64);
                }
                Self::lemma_same_bits(self, none);
                crate::bitboard::sizedint::lemma_low_value_zero(none.0@, T as nat);
            }
            if self@ == 0 {
                assert forall|i: nat| i < Self::width() implies !self.bit_at(i) by {
                    let j = T - 1 - i / 64;
                    if self.0[j] != 0 {
                        crate::bitboard::sizedint::lemma_low_value_nonzero(
                            self.0@,
                            T as nat,
                            j as int,
                        );
                    }
                    lemma_bit_logic(0, 0, (i % 64) as u64);
                }
            }
        }
        r
    }
}

} // verus!
