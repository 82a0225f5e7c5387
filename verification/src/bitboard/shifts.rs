//! What shifting a wide integer does to the number that it stands for.
use vstd::prelude::*;
use vstd::arithmetic::div_mod::{lemma_div_denominator, lemma_fundamental_div_mod_converse,
    lemma_mul_mod_noop_left};
use vstd::arithmetic::power2::{lemma2_to64, lemma2_to64_rest, lemma_pow2_adds, lemma_pow2_pos,
    pow2};
use crate::bitboard::sizedint::{base, high_value, lemma_low_value_bound,
    lemma_low_value_zero, lemma_split, lemma_weight_adds, lemma_weight_positive, limb_at,
    limbs_value, low_value, shl_limb, shr_limb, weight};

verus! {

/// The limbs moved `whole` limbs towards the most significant end, zeros
/// moving in.
pub open spec fn moved_up(limbs: Seq<u64>, whole: nat) -> Seq<u64> {
    Seq::new(limbs.len(), |i: int| limb_at(limbs, i + whole))
}

/// The limbs moved `whole` limbs towards the least significant end, zeros
/// moving in.
pub open spec fn moved_down(limbs: Seq<u64>, whole: nat) -> Seq<u64> {
    Seq::new(limbs.len(), |i: int| limb_at(limbs, i - whole))
}

/// The limbs moved `bits` bits, fewer than 64, towards the most significant
/// end.
pub open spec fn bits_up(limbs: Seq<u64>, bits: u64) -> Seq<u64> {
    Seq::new(
        limbs.len(),
        |i: int| (limbs[i] << bits) | (limb_at(limbs, i + 1) >> ((64 - bits) as u64)),
    )
}

/// The limbs moved `bits` bits, fewer than 64, towards the least
/// significant end.
pub open spec fn bits_down(limbs: Seq<u64>, bits: u64) -> Seq<u64> {
    Seq::new(
        limbs.len(),
        |i: int| (limbs[i] >> bits) | (limb_at(limbs, i - 1) << ((64 - bits) as u64)),
    )
}

/// The weight of a limb is a power of two.
pub proof fn lemma_weight_pow2(k: nat)
    ensures
        weight(k) == pow2(64 * k),
    decreases k,
{
    lemma2_to64();
    lemma2_to64_rest();
    if k > 0 {
        lemma_weight_pow2((k - 1) as nat);
        lemma_pow2_adds(64, (64 * (k - 1)) as nat);
    }
}

/// The limb that has `j` limbs below it.
pub open spec fn from_end(limbs: Seq<u64>, j: int) -> u64 {
    limbs[limbs.len() - 1 - j]
}

/// The least significant limbs alone decide their value, whatever the
/// number of limbs above them.
pub proof fn lemma_low_value_suffix(a: Seq<u64>, b: Seq<u64>, k: nat)
    requires
        k <= a.len(),
        k <= b.len(),
        forall|j: int| 0 <= j < k ==> #[trigger] from_end(a, j) == from_end(b, j),
    ensures
        low_value(a, k) == low_value(b, k),
    decreases k,
{
    if k > 0 {
        lemma_low_value_suffix(a, b, (k - 1) as nat);
        assert(from_end(a, k - 1) == from_end(b, k - 1));
    }
}

/// The most significant limbs alone decide their value, whatever the
/// number of limbs below them.
pub proof fn lemma_high_value_prefix(a: Seq<u64>, b: Seq<u64>, k: nat)
    requires
        k <= a.len(),
        k <= b.len(),
        forall|j: int| 0 <= j < k ==> a[j] == b[j],
    ensures
        high_value(a, k) == high_value(b, k),
    decreases k,
{
    if k > 0 {
        lemma_high_value_prefix(a, b, (k - 1) as nat);
    }
}

/// Limbs that are all zero at the most significant end add nothing.
pub proof fn lemma_high_value_zero(a: Seq<u64>, k: nat)
    requires
        k <= a.len(),
        forall|j: int| 0 <= j < k ==> a[j] == 0,
    ensures
        high_value(a, k) == 0,
    decreases k,
{
    if k > 0 {
        lemma_high_value_zero(a, (k - 1) as nat);
    }
}

/// The number of the most significant limbs of one sequence is the number
/// of the least significant limbs of another that holds the same limbs
/// there.
pub proof fn lemma_high_is_low(a: Seq<u64>, b: Seq<u64>, k: nat)
    requires
        k <= a.len(),
        k <= b.len(),
        forall|j: int| 0 <= j < k ==> a[j] == b[b.len() - k + j],
    ensures
        high_value(a, k) == low_value(b, k),
{
    let part = a.take(k as int);
    lemma_high_value_prefix(a, part, k);
    lemma_split(part, k);
    assert(weight(0) == 1);
    assert(high_value(part, k) * 1 == high_value(part, k));
    assert(low_value(part, 0) == 0);
    assert(limbs_value(part) == high_value(part, k));
    assert forall|j: int| 0 <= j < k implies #[trigger] from_end(part, j) == from_end(b, j) by {
        assert(part[k - 1 - j] == a[k - 1 - j]);
    }
    lemma_low_value_suffix(part, b, k);
}

/// Limbs that are moved up stand for the number times the weight of the
/// limbs that they moved, as far as it fits.
pub proof fn lemma_moved_up(limbs: Seq<u64>, whole: nat)
    ensures
        limbs_value(moved_up(limbs, whole)) == (limbs_value(limbs) * weight(whole)) % weight(
            limbs.len(),
        ),
{
    let len = limbs.len();
    let moved = moved_up(limbs, whole);
    let m = weight(len);
    lemma_weight_positive(len);
    lemma_weight_positive(whole);
    lemma_low_value_bound(moved, len);
    if whole >= len {
        lemma_low_value_zero(moved, len);
        lemma_weight_adds((whole - len) as nat, len);
        let factor = limbs_value(limbs) * weight((whole - len) as nat);
        assert(limbs_value(limbs) * weight(whole) == factor * m) by (nonlinear_arith)
            requires
                weight(whole) == weight((whole - len) as nat) * m,
                factor == limbs_value(limbs) * weight((whole - len) as nat),
        ;
        lemma_fundamental_div_mod_converse(limbs_value(limbs) * weight(whole), m, factor, 0);
    } else {
        let kept = (len - whole) as nat;
        lemma_split(limbs, whole);
        lemma_split(moved, kept);
        lemma_low_value_zero(moved, whole);
        assert forall|j: int| 0 <= j < kept implies moved[j] == limbs[len - kept + j] by {}
        lemma_high_is_low(moved, limbs, kept);
        lemma_weight_adds(kept, whole);
        let low = low_value(limbs, kept);
        let high = high_value(limbs, whole);
        let w = weight(whole);
        assert(limbs_value(moved) == low * w);
        assert(limbs_value(limbs) * w == high * m + low * w) by (nonlinear_arith)
            requires
                limbs_value(limbs) == high * weight(kept) + low,
                m == weight(kept) * w,
        ;
        lemma_fundamental_div_mod_converse(limbs_value(limbs) * w, m, high, low * w);
    }
}

/// Limbs that are moved down stand for the number divided by the weight of
/// the limbs that they moved.
pub proof fn lemma_moved_down(limbs: Seq<u64>, whole: nat)
    ensures
        limbs_value(moved_down(limbs, whole)) == limbs_value(limbs) / weight(whole),
{
    let len = limbs.len();
    let moved = moved_down(limbs, whole);
    lemma_weight_positive(whole);
    lemma_low_value_bound(limbs, len);
    if whole >= len {
        lemma_low_value_zero(moved, len);
        lemma_weight_adds((whole - len) as nat, len);
        lemma_weight_positive((whole - len) as nat);
        assert(weight(whole) >= weight(len)) by (nonlinear_arith)
            requires
                weight(whole) == weight((whole - len) as nat) * weight(len),
                weight((whole - len) as nat) >= 1,
                weight(len) >= 1,
        ;
        lemma_fundamental_div_mod_converse(limbs_value(limbs), weight(whole), 0, limbs_value(limbs));
    } else {
        let kept = (len - whole) as nat;
        lemma_split(limbs, kept);
        lemma_split(moved, whole);
        lemma_high_value_zero(moved, whole);
        lemma_low_value_bound(limbs, whole);
        assert forall|j: int| 0 <= j < kept implies limbs[j] == moved[len - kept + j] by {}
        lemma_high_is_low(limbs, moved, kept);
        let high = high_value(limbs, kept);
        assert(0 * weight(kept) == 0);
        assert(limbs_value(moved) == high);
        lemma_fundamental_div_mod_converse(
            limbs_value(limbs),
            weight(whole),
            high,
            low_value(limbs, whole),
        );
    }
}

/// One limb moved up by some bits: what leaves at the top and what stays,
/// with the bits that come in from the limb below.
pub proof fn lemma_limb_up(a: u64, below: u64, bits: u64)
    requires
        0 < bits < 64,
    ensures
        ((a << bits) | (below >> ((64 - bits) as u64))) + (a >> ((64 - bits) as u64)) * base() == a
            * pow2(bits as nat) + (below >> ((64 - bits) as u64)),
{
    let carry = below >> ((64 - bits) as u64);
    let out = a >> ((64 - bits) as u64);
    let limb = (a << bits) | carry;
    let power = 1u64 << bits;
    assert((limb as u128) + (out as u128) * 0x1_0000_0000_0000_0000u128 == (a as u128) * (
    power as u128) + (carry as u128)) by (bit_vector)
        requires
            0 < bits < 64,
            carry == below >> ((64 - bits) as u64),
            out == a >> ((64 - bits) as u64),
            limb == (a << bits) | carry,
            power == 1u64 << bits,
    ;
    vstd::bits::lemma_u64_pow2_no_overflow(bits as nat);
    vstd::bits::lemma_u64_shl_is_mul(1, bits);
}

/// One limb moved down by some bits: what leaves at the bottom and what
/// stays, with the bits that come in from the limb above.
pub proof fn lemma_limb_down(a: u64, above: u64, bits: u64)
    requires
        0 < bits < 64,
    ensures
        ((a >> bits) | (above << ((64 - bits) as u64))) * pow2(bits as nat) + a % (pow2(
            bits as nat,
        ) as u64) == a + (above % (pow2(bits as nat) as u64)) * base(),
        0 <= a % (pow2(bits as nat) as u64) < pow2(bits as nat),
{
    let mask = ((1u64 << bits) - 1) as u64;
    let limb = (a >> bits) | (above << ((64 - bits) as u64));
    let kept = a >> bits;
    let come = above & mask;
    let placed = come << ((64 - bits) as u64);
    assert((1u64 << bits) >= 1 && (limb as u128) == (kept as u128) + (placed as u128))
        by (bit_vector)
        requires
            0 < bits < 64,
            mask == ((1u64 << bits) - 1) as u64,
            limb == (a >> bits) | (above << ((64 - bits) as u64)),
            kept == a >> bits,
            come == above & mask,
            placed == come << ((64 - bits) as u64),
    ;
    let power = pow2(bits as nat) as int;
    let rest = pow2((64 - bits) as nat) as int;
    lemma_pow2_pos(bits as nat);
    lemma_pow2_pos((64 - bits) as nat);
    lemma2_to64();
    lemma2_to64_rest();
    lemma_pow2_adds((64 - bits) as nat, bits as nat);
    vstd::bits::lemma_u64_pow2_no_overflow(bits as nat);
    vstd::bits::lemma_u64_pow2_no_overflow((64 - bits) as nat);
    vstd::bits::lemma_u64_shl_is_mul(1, bits);
    vstd::bits::lemma_u64_shr_is_div(a, bits);
    vstd::bits::lemma_u64_low_bits_mask_is_mod(above, bits as nat);
    assert(mask == vstd::bits::low_bits_mask(bits as nat));
    assert(come == above % (power as u64));
    assert(come * rest <= u64::MAX) by (nonlinear_arith)
        requires
            0 <= come <= power - 1,
            rest * power == base(),
            rest >= 1,
    ;
    vstd::bits::lemma_u64_shl_is_mul(come, (64 - bits) as u64);
    vstd::arithmetic::div_mod::lemma_fundamental_div_mod(a as int, power);
    let low = (a % (power as u64)) as int;
    assert((kept + come * rest) * power + low == a + come * base()) by (nonlinear_arith)
        requires
            a == power * kept + low,
            rest * power == base(),
    ;
}

/// The least significant limbs after the bits moved up, with what left
/// them at the top, are those limbs times the power of two.
pub proof fn lemma_bits_up_low(limbs: Seq<u64>, bits: u64, k: nat)
    requires
        0 < bits < 64,
        k <= limbs.len(),
    ensures
        low_value(bits_up(limbs, bits), k) + (limb_at(limbs, limbs.len() - k) >> ((64
            - bits) as u64)) * weight(k) == low_value(limbs, k) * pow2(bits as nat),
    decreases k,
{
    let moved = bits_up(limbs, bits);
    let power = pow2(bits as nat) as int;
    if k == 0 {
        assert(0u64 >> ((64 - bits) as u64) == 0) by (bit_vector);
        assert(0 * power == 0);
    } else {
        let j = (k - 1) as nat;
        let i = limbs.len() - k;
        lemma_bits_up_low(limbs, bits, j);
        lemma_limb_up(limbs[i], limb_at(limbs, i + 1), bits);
        lemma_weight_positive(j);
        let w = weight(j);
        let a = limbs[i] as int;
        let carry = (limb_at(limbs, i + 1) >> ((64 - bits) as u64)) as int;
        let out = (limbs[i] >> ((64 - bits) as u64)) as int;
        let limb = moved[i] as int;
        let low = low_value(limbs, j);
        let low_moved = low_value(moved, j);
        assert(limb + out * base() == a * power + carry);
        assert(low_moved + carry * w == low * power);
        assert((low_moved + limb * w) + out * (base() * w) == (low + a * w) * power)
            by (nonlinear_arith)
            requires
                limb + out * base() == a * power + carry,
                low_moved + carry * w == low * power,
        ;
    }
}

/// Limbs whose bits are moved up stand for the number times the power of
/// two, as far as it fits.
pub proof fn lemma_bits_up(limbs: Seq<u64>, bits: u64)
    requires
        0 < bits < 64,
    ensures
        limbs_value(bits_up(limbs, bits)) == (limbs_value(limbs) * pow2(bits as nat)) % weight(
            limbs.len(),
        ),
{
    let len = limbs.len();
    let moved = bits_up(limbs, bits);
    lemma_bits_up_low(limbs, bits, len);
    lemma_low_value_bound(moved, len);
    lemma_weight_positive(len);
    let out = (limb_at(limbs, 0) >> ((64 - bits) as u64)) as int;
    let m = weight(len);
    assert(out * m == m * out) by (nonlinear_arith);
    lemma_fundamental_div_mod_converse(
        limbs_value(limbs) * pow2(bits as nat),
        m,
        out,
        limbs_value(moved),
    );
}

/// The most significant limbs after the bits moved down, with what left
/// them at the bottom, are those limbs.
pub proof fn lemma_bits_down_high(limbs: Seq<u64>, bits: u64, k: nat)
    requires
        0 < bits < 64,
        k <= limbs.len(),
    ensures
        high_value(bits_down(limbs, bits), k) * pow2(bits as nat) + limb_at(limbs, k - 1) % (pow2(
            bits as nat,
        ) as u64) == high_value(limbs, k),
    decreases k,
{
    let moved = bits_down(limbs, bits);
    let power = pow2(bits as nat) as int;
    lemma_pow2_pos(bits as nat);
    vstd::bits::lemma_u64_pow2_no_overflow(bits as nat);
    if k == 0 {
        assert(0 * power == 0);
        assert(0u64 % (power as u64) == 0);
    } else {
        let j = (k - 1) as nat;
        lemma_bits_down_high(limbs, bits, j);
        lemma_limb_down(limbs[k - 1], limb_at(limbs, k - 2), bits);
        let a = limbs[k - 1] as int;
        let rest = (limbs[k - 1] % (power as u64)) as int;
        let above = (limb_at(limbs, k - 2) % (power as u64)) as int;
        let limb = moved[k - 1] as int;
        let high = high_value(limbs, j);
        let high_moved = high_value(moved, j);
        assert(limb * power + rest == a + above * base());
        assert(high_moved * power + above == high);
        assert((high_moved * base() + limb) * power + rest == high * base() + a)
            by (nonlinear_arith)
            requires
                limb * power + rest == a + above * base(),
                high_moved * power + above == high,
        ;
    }
}

/// Limbs whose bits are moved down stand for the number divided by the
/// power of two.
pub proof fn lemma_bits_down(limbs: Seq<u64>, bits: u64)
    requires
        0 < bits < 64,
    ensures
        limbs_value(bits_down(limbs, bits)) == limbs_value(limbs) / (pow2(bits as nat) as int),
{
    let len = limbs.len();
    let moved = bits_down(limbs, bits);
    let power = pow2(bits as nat) as int;
    lemma_bits_down_high(limbs, bits, len);
    lemma_split(limbs, len);
    lemma_split(moved, len);
    lemma_pow2_pos(bits as nat);
    vstd::bits::lemma_u64_pow2_no_overflow(bits as nat);
    assert(weight(0) == 1);
    assert(high_value(limbs, len) * 1 == high_value(limbs, len));
    assert(high_value(moved, len) * 1 == high_value(moved, len));
    assert(low_value(limbs, 0) == 0);
    assert(low_value(moved, 0) == 0);
    let rest = (limb_at(limbs, len - 1) % (power as u64)) as int;
    assert(0 <= rest < power) by {
        if len > 0 {
            lemma_limb_down(limbs[len - 1], 0, bits);
        } else {
            assert(0u64 % (power as u64) == 0);
        }
    }
    assert(limbs_value(moved) * power == power * limbs_value(moved)) by (nonlinear_arith);
    lemma_fundamental_div_mod_converse(limbs_value(limbs), power, limbs_value(moved), rest);
}

/// The limbs of a number that is moved `shift` bits up stand for the number
/// times two to the power of `shift`, wrapped around at the width of the
/// limbs.
pub proof fn lemma_shl_value(limbs: Seq<u64>, shifted: Seq<u64>, shift: nat)
    requires
        shifted.len() == limbs.len(),
        forall|i: int| 0 <= i < limbs.len() ==> shifted[i] == shl_limb(limbs, i, shift),
    ensures
        limbs_value(shifted) == (limbs_value(limbs) * pow2(shift)) % weight(limbs.len()),
{
    let whole = shift / 64;
    let bits = (shift % 64) as u64;
    let moved = moved_up(limbs, whole);
    let m = weight(limbs.len());
    lemma_weight_positive(limbs.len());
    lemma_moved_up(limbs, whole);
    lemma_weight_pow2(whole);
    lemma_pow2_adds(64 * whole, bits as nat);
    lemma2_to64();
    assert(64 * whole + bits == shift);
    if bits == 0 {
        assert(shifted =~= moved);
        assert(weight(whole) * 1 == weight(whole));
    } else {
        assert(shifted =~= bits_up(moved, bits)) by {
            assert forall|i: int| 0 <= i < limbs.len() implies shifted[i] == bits_up(
                moved,
                bits,
            )[i] by {
                assert(limb_at(moved, i + 1) == limb_at(limbs, i + whole + 1));
            }
        }
        lemma_bits_up(moved, bits);
        let power = pow2(bits as nat) as int;
        lemma_mul_mod_noop_left(limbs_value(limbs) * weight(whole), power, m);
        assert(limbs_value(limbs) * weight(whole) * power == limbs_value(limbs) * (weight(whole)
            * power)) by (nonlinear_arith);
    }
}

/// The limbs of a number that is moved `shift` bits down stand for the
/// number divided by two to the power of `shift`.
pub proof fn lemma_shr_value(limbs: Seq<u64>, shifted: Seq<u64>, shift: nat)
    requires
        shifted.len() == limbs.len(),
        forall|i: int| 0 <= i < limbs.len() ==> shifted[i] == shr_limb(limbs, i, shift),
    ensures
        limbs_value(shifted) == limbs_value(limbs) / (pow2(shift) as int),
{
    let whole = shift / 64;
    let bits = (shift % 64) as u64;
    let moved = moved_down(limbs, whole);
    lemma_moved_down(limbs, whole);
    lemma_weight_pow2(whole);
    lemma_weight_positive(whole);
    lemma_pow2_adds(64 * whole, bits as nat);
    lemma_pow2_pos(bits as nat);
    lemma2_to64();
    lemma_low_value_bound(limbs, limbs.len());
    assert(64 * whole + bits == shift);
    if bits == 0 {
        assert(shifted =~= moved);
        assert(weight(whole) * 1 == weight(whole));
    } else {
        assert(shifted =~= bits_down(moved, bits)) by {
            assert forall|i: int| 0 <= i < limbs.len() implies shifted[i] == bits_down(
                moved,
                bits,
            )[i] by {
                assert(limb_at(moved, i - 1) == limb_at(limbs, i - whole - 1));
            }
        }
        lemma_bits_down(moved, bits);
        lemma_div_denominator(limbs_value(limbs), weight(whole), pow2(bits as nat) as int);
    }
}

} // verus!
