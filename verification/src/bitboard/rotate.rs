//! Integers of several limbs with their bits moved round the whole width,
//! and with their bytes in reverse order.
use vstd::prelude::*;
use crate::bitboard::bitint::{BitInt, limbs_bit};
use crate::bitboard::bits::bit;
use crate::bitboard::sizedint::SizedInt;

verus! {

/// `u64::swap_bytes`: the bytes of the word in reverse order, so that bit
/// `k` of the result is the bit at the same place within the byte that
/// lies as far from the top as the byte of `k` lies from the bottom.
pub assume_specification[ u64::swap_bytes ](x: u64) -> (r: u64)
    ensures
        bytes_swapped(r, x),
;

/// Whether the bytes of `r` are those of `x` in reverse order: each bit of
/// `r` is the bit of `x` at its mirrored place.
pub open spec fn bytes_swapped(r: u64, x: u64) -> bool {
    forall|k: u64| k < 64 ==> #[trigger] bit(r, k) == bit(x, mirrored(k as int, 8) as u64)
}

/// The place of the bit `i` once the `bytes` bytes of an integer stand in
/// reverse order.
pub open spec fn mirrored(i: int, bytes: int) -> int {
    8 * (bytes - 1 - i / 8) + i % 8
}

/// The place from which the bit `i` comes when the bits of an integer of
/// `width` bits are moved `n` places up round the width.
pub open spec fn turned_from(i: int, n: int, width: int) -> int {
    (i + width - n % width) % width
}

/// A bit of limbs whose limbs stand in reverse order, each with its bytes
/// in reverse order, is the bit at the mirrored place.
pub proof fn lemma_mirrored_limbs(limbs: Seq<u64>, swapped: Seq<u64>, i: int)
    requires
        swapped.len() == limbs.len(),
        0 <= i < 64 * limbs.len(),
        bytes_swapped(swapped[limbs.len() - 1 - i / 64], limbs[i / 64]),
    ensures
        limbs_bit(swapped, i) == limbs_bit(limbs, mirrored(i, (8 * limbs.len()) as int)),
{
    let len = limbs.len() as int;
    let k = (i % 64) as u64;
    let within = mirrored(k as int, 8);
    let from = mirrored(i, 8 * len);
    assert(0 <= within < 64);
    assert(from == 64 * (len - 1 - i / 64) + within);
    assert(from / 64 == len - 1 - i / 64);
    assert(from % 64 == within);
    assert(bit(swapped[len - 1 - i / 64], k) == bit(limbs[i / 64], within as u64));
}

impl<const T: usize> SizedInt<T> {
    /// The bits moved `n` places up, those that leave at the top coming
    /// back in at the bottom.
    pub fn rotate_left(self, n: u32) -> (r: Self)
        requires
            T >= 1,
            64 * T <= u32::MAX,
        ensures
            forall|i: nat|
                i < 64 * T ==> #[trigger] r.bit_at(i) == self.bit_at(
                    turned_from(i as int, n as int, 64 * T) as nat,
                ),
    {
        let width: u32 = (T as u32) * 64;
        let by: u32 = n % width;
        let high = self.up(by);
        let low = self.down(width - by);
        let r = high.either(low);
        proof {
            assert forall|i: nat| i < 64 * T implies #[trigger] r.bit_at(i) == self.bit_at(
                turned_from(i as int, n as int, 64 * T) as nat,
            ) by {
                if i >= by {
                    vstd::arithmetic::div_mod::lemma_mod_add_multiples_vanish(
                        i - by,
                        width as int,
                    );
                    vstd::arithmetic::div_mod::lemma_small_mod((i - by) as nat, width as nat);
                } else {
                    vstd::arithmetic::div_mod::lemma_small_mod(
                        (i + width - by) as nat,
                        width as nat,
                    );
                }
            }
        }
        r
    }

    /// The bits moved `n` places down, those that leave at the bottom
    /// coming back in at the top.
    pub fn rotate_right(self, n: u32) -> (r: Self)
        requires
            T >= 1,
            64 * T <= u32::MAX,
        ensures
            forall|i: nat|
                i < 64 * T ==> #[trigger] r.bit_at(i) == self.bit_at(
                    ((i + n % ((64 * T) as u32)) % (64 * T)) as nat,
                ),
    {
        let width: u32 = (T as u32) * 64;
        let by: u32 = n % width;
        let low = self.down(by);
        let high = self.up(width - by);
        let r = low.either(high);
        proof {
            assert forall|i: nat| i < 64 * T implies #[trigger] r.bit_at(i) == self.bit_at(
                ((i + n % ((64 * T) as u32)) % (64 * T)) as nat,
            ) by {
                if i + by < width {
                    vstd::arithmetic::div_mod::lemma_small_mod((i + by) as nat, width as nat);
                } else {
                    vstd::arithmetic::div_mod::lemma_mod_add_multiples_vanish(
                        i + by - width,
                        width as int,
                    );
                    vstd::arithmetic::div_mod::lemma_small_mod(
                        (i + by - width) as nat,
                        width as nat,
                    );
                }
            }
        }
        r
    }

    /// The bytes of the integer in reverse order.
    pub fn swap_bytes(self) -> (r: Self)
        ensures
            forall|i: nat|
                i < 64 * T ==> #[trigger] r.bit_at(i) == self.bit_at(
                    mirrored(i as int, 8 * T) as nat,
                ),
    {
        let mut result = [0u64;T];
        let mut at: usize = 0;
        while at < T
            invariant
                at <= T,
                forall|j: int|
                    0 <= j < at ==> bytes_swapped(#[trigger] result[j], self.0[T - 1 - j]),
            decreases T - at,
        {
            result[at] = self.0[T - 1 - at].swap_bytes();
            at = at + 1;
        }
        let r = SizedInt(result);
        proof {
            assert forall|i: nat| i < 64 * T implies #[trigger] r.bit_at(i) == self.bit_at(
                mirrored(i as int, 8 * T) as nat,
            ) by {
                let j = T - 1 - i / 64;
                assert(bytes_swapped(result[j], self.0[T - 1 - j]));
                lemma_mirrored_limbs(self.0@, result@, i as int);
            }
        }
        r
    }
}

} // verus!
