//! Unsigned integers of `T` limbs of 64 bits, most significant limb first,
//! with the arithmetic of a machine word of that width.
use vstd::prelude::*;
use vstd::std_specs::bits::{u64_leading_zeros, u64_trailing_zeros};
use crate::bitboard::popcount;
use vstd::arithmetic::power2::{pow2, lemma_pow2_unfold, lemma_pow2_pos, lemma2_to64_rest,
    lemma2_to64};
use vstd::arithmetic::div_mod::lemma_fundamental_div_mod_converse;

verus! {

/// An unsigned integer of `64 * T` bits; limb 0 is the most significant.
#[derive(Eq, PartialEq, Clone, Copy, Debug)]
pub struct SizedInt<const T: usize>(pub [u64; T]);

/// The number of values of one limb.
pub open spec fn base() -> int {
    0x1_0000_0000_0000_0000
}

/// The weight of the limb that has `k` limbs below it.
pub open spec fn weight(k: nat) -> int
    decreases k,
{
    if k == 0 {
        1
    } else {
        base() * weight((k - 1) as nat)
    }
}

/// The number that the `k` least significant limbs stand for.
pub open spec fn low_value(limbs: Seq<u64>, k: nat) -> int
    decreases k,
{
    if k == 0 || k > limbs.len() {
        0
    } else {
        low_value(limbs, (k - 1) as nat) + limbs[limbs.len() - k] * weight((k - 1) as nat)
    }
}

/// The number that the limbs stand for.
pub open spec fn limbs_value(limbs: Seq<u64>) -> int {
    low_value(limbs, limbs.len())
}

/// Weights are positive, and each is the weight below it times the number
/// of values of a limb.
pub proof fn lemma_weight_positive(k: nat)
    ensures
        weight(k) >= 1,
        weight(k + 1) == base() * weight(k),
    decreases k,
{
    if k > 0 {
        lemma_weight_positive((k - 1) as nat);
        assert(base() * weight((k - 1) as nat) >= 1) by (nonlinear_arith)
            requires
                weight((k - 1) as nat) >= 1,
                base() >= 1,
        ;
    }
}

/// The `k` lowest limbs stand for a number below the weight of limb `k`.
pub proof fn lemma_low_value_bound(limbs: Seq<u64>, k: nat)
    requires
        k <= limbs.len(),
    ensures
        0 <= low_value(limbs, k) < weight(k),
    decreases k,
{
    if k > 0 {
        let j = (k - 1) as nat;
        lemma_low_value_bound(limbs, j);
        lemma_weight_positive(j);
        let limb = limbs[limbs.len() - k] as int;
        let w = weight(j);
        assert(0 <= limb * w && limb * w + w <= base() * w) by (nonlinear_arith)
            requires
                0 <= limb < base(),
                w >= 1,
        ;
    }
}

/// The value of the lowest limbs depends on those limbs alone.
pub proof fn lemma_low_value_same(a: Seq<u64>, b: Seq<u64>, k: nat)
    requires
        a.len() == b.len(),
        k <= a.len(),
        forall|i: int| a.len() - k <= i < a.len() ==> a[i] == b[i],
    ensures
        low_value(a, k) == low_value(b, k),
    decreases k,
{
    if k > 0 {
        lemma_low_value_same(a, b, (k - 1) as nat);
    }
}

/// Limbs that are all zero stand for zero.
pub proof fn lemma_low_value_zero(a: Seq<u64>, k: nat)
    requires
        k <= a.len(),
        forall|i: int| a.len() - k <= i < a.len() ==> a[i] == 0,
    ensures
        low_value(a, k) == 0,
    decreases k,
{
    if k > 0 {
        lemma_low_value_zero(a, (k - 1) as nat);
        assert(0 * weight((k - 1) as nat) == 0);
    }
}

/// A number is zero only if all its limbs are.
pub proof fn lemma_low_value_nonzero(a: Seq<u64>, k: nat, i: int)
    requires
        k <= a.len(),
        a.len() - k <= i < a.len(),
        a[i] != 0,
    ensures
        low_value(a, k) > 0,
    decreases k,
{
    let j = (k - 1) as nat;
    lemma_low_value_bound(a, j);
    lemma_weight_positive(j);
    if i == a.len() - k {
        let limb = a[i] as int;
        let w = weight(j);
        assert(limb * w >= 1) by (nonlinear_arith)
            requires
                limb >= 1,
                w >= 1,
        ;
    } else {
        lemma_low_value_nonzero(a, j, i);
        let limb = a[a.len() - k] as int;
        let w = weight(j);
        assert(limb * w >= 0) by (nonlinear_arith)
            requires
                limb >= 0,
                w >= 1,
        ;
    }
}

/// Limbs are compared from the most significant down: where the limbs above
/// limb `i` agree, limb `i` decides.
pub proof fn lemma_first_difference(a: Seq<u64>, b: Seq<u64>, i: int, k: nat)
    requires
        a.len() == b.len(),
        0 <= i < a.len(),
        a.len() - i <= k <= a.len(),
        forall|j: int| 0 <= j < i ==> a[j] == b[j],
        a[i] < b[i],
    ensures
        low_value(a, k) < low_value(b, k),
    decreases k,
{
    let j = (k - 1) as nat;
    if k == a.len() - i {
        lemma_low_value_bound(a, j);
        lemma_low_value_bound(b, j);
        lemma_weight_positive(j);
        let x = a[i] as int;
        let y = b[i] as int;
        let w = weight(j);
        assert(x * w + w <= y * w) by (nonlinear_arith)
            requires
                x + 1 <= y,
                w >= 1,
        ;
    } else {
        lemma_first_difference(a, b, i, j);
    }
}

/// Adds two limbs and a carry; hands back the limb of the sum and the carry
/// out of it.
pub fn limb_add(a: u64, b: u64, carry: u64) -> (r: (u64, u64))
    requires
        carry <= 1,
    ensures
        r.0 + r.1 * base() == a + b + carry,
        r.1 <= 1,
{
    let sum: u128 = a as u128 + b as u128 + carry as u128;
    let low: u64 = (sum % 0x1_0000_0000_0000_0000u128) as u64;
    let high: u64 = (sum / 0x1_0000_0000_0000_0000u128) as u64;
    (low, high)
}

/// Subtracts a limb and a borrow from a limb; hands back the limb of the
/// difference and the borrow that it took.
pub fn limb_sub(a: u64, b: u64, borrow: u64) -> (r: (u64, u64))
    requires
        borrow <= 1,
    ensures
        r.0 - r.1 * base() == a - b - borrow,
        r.1 <= 1,
{
    let take: u128 = b as u128 + borrow as u128;
    if a as u128 >= take {
        ((a as u128 - take) as u64, 0)
    } else {
        ((0x1_0000_0000_0000_0000u128 + a as u128 - take) as u64, 1)
    }
}

impl<const T: usize> View for SizedInt<T> {
    type V = int;

    /// The number that the integer stands for.
    open spec fn view(&self) -> int {
        limbs_value(self.0@)
    }
}

impl<const T: usize> SizedInt<T> {
    /// The number of values of this type: what arithmetic wraps around at.
    pub open spec fn modulus() -> int {
        weight(T as nat)
    }

    /// The number zero.
    pub fn zero() -> (r: Self)
        ensures
            r@ == 0,
            forall|i: int| 0 <= i < T ==> r.0[i] == 0,
    {
        let r = Self([0u64;T]);
        proof {
            lemma_low_value_zero(r.0@, T as nat);
        }
        r
    }

    /// The number one; a type without limbs has no such value.
    pub fn one() -> (r: Self)
        requires
            T >= 1,
        ensures
            r@ == 1,
    {
        Self::from(1)
    }

    /// The integer whose least significant limb is `n`.
    pub fn from(n: u64) -> (r: Self)
        requires
            T >= 1,
        ensures
            r@ == n,
            r.0[T - 1] == n,
            forall|i: int| 0 <= i < T - 1 ==> r.0[i] == 0,
    {
        let mut arr = [0u64;T];
        arr[T - 1] = n;
        proof {
            lemma_low_value_zero(arr@.update(T - 1, 0u64), T as nat);
            lemma_value_update(arr@.update(T - 1, 0u64), T - 1, n);
            assert(arr@.update(T - 1, 0u64).update(T - 1, n) =~= arr@);
            assert(weight(0) == 1);
        }
        Self(arr)
    }

    /// Whether the number is zero.
    pub fn is_zero(&self) -> (r: bool)
        ensures
            r == (self@ == 0),
    {
        let mut i: usize = 0;
        while i < T
            invariant
                i <= T,
                forall|j: int| 0 <= j < i ==> self.0[j] == 0,
            decreases T - i,
        {
            if self.0[i] != 0 {
                proof {
                    lemma_low_value_nonzero(self.0@, T as nat, i as int);
                }
                return false;
            }
            i = i + 1;
        }
        proof {
            lemma_low_value_zero(self.0@, T as nat);
        }
        true
    }

    /// Whether the number is one.
    pub fn is_one(&self) -> (r: bool)
        ensures
            r == (self@ == 1),
    {
        if T == 0 {
            return false;
        }
        let mut i: usize = 0;
        while i < T - 1
            invariant
                T >= 1,
                i <= T - 1,
                forall|j: int| 0 <= j < i ==> self.0[j] == 0,
            decreases T - i,
        {
            if self.0[i] != 0 {
                proof {
                    self.lemma_high_limb(i as int);
                }
                return false;
            }
            i = i + 1;
        }
        proof {
            let low = self.0@.update(T - 1, 0u64);
            lemma_low_value_zero(low, T as nat);
            lemma_value_update(low, T - 1, self.0[T - 1]);
            assert(low.update(T - 1, self.0[T - 1]) =~= self.0@);
            assert(weight(0) == 1);
        }
        self.0[T - 1] == 1
    }

    /// A limb above the lowest that is not zero makes the number at least
    /// the value of one limb.
    pub proof fn lemma_high_limb(self, i: int)
        requires
            0 <= i < T - 1,
            self.0[i] != 0,
        ensures
            self@ >= base(),
    {
        let zero = Seq::new(T as nat, |j: int| 0u64);
        let only = zero.update(i, self.0[i]);
        lemma_low_value_zero(zero, T as nat);
        lemma_value_update(zero, i, self.0[i]);
        lemma_limbs_monotone(only, self.0@, T as nat);
        let k = (T - 1 - i) as nat;
        lemma_weight_positive((k - 1) as nat);
        let limb = self.0[i] as int;
        let w = weight(k);
        assert(limb * w >= base()) by (nonlinear_arith)
            requires
                limb >= 1,
                w >= base(),
        ;
    }

    /// The limbs of `self` and `rhs` and-ed one by one.
    pub fn bitand(self, rhs: Self) -> (r: Self)
        ensures
            forall|i: int| 0 <= i < T ==> r.0[i] == self.0[i] & rhs.0[i],
    {
        let mut result = [0u64;T];
        let mut i: usize = 0;
        while i < T
            invariant
                i <= T,
                forall|j: int| 0 <= j < i ==> result[j] == self.0[j] & rhs.0[j],
            decreases T - i,
        {
            result[i] = self.0[i] & rhs.0[i];
            i = i + 1;
        }
        Self(result)
    }

    /// The limbs of `self` and `rhs` or-ed one by one.
    pub fn bitor(self, rhs: Self) -> (r: Self)
        ensures
            forall|i: int| 0 <= i < T ==> r.0[i] == self.0[i] | rhs.0[i],
    {
        let mut result = [0u64;T];
        let mut i: usize = 0;
        while i < T
            invariant
                i <= T,
                forall|j: int| 0 <= j < i ==> result[j] == self.0[j] | rhs.0[j],
            decreases T - i,
        {
            result[i] = self.0[i] | rhs.0[i];
            i = i + 1;
        }
        Self(result)
    }

    /// The limbs of `self` and `rhs` xor-ed one by one.
    pub fn bitxor(self, rhs: Self) -> (r: Self)
        ensures
            forall|i: int| 0 <= i < T ==> r.0[i] == self.0[i] ^ rhs.0[i],
    {
        let mut result = [0u64;T];
        let mut i: usize = 0;
        while i < T
            invariant
                i <= T,
                forall|j: int| 0 <= j < i ==> result[j] == self.0[j] ^ rhs.0[j],
            decreases T - i,
        {
            result[i] = self.0[i] ^ rhs.0[i];
            i = i + 1;
        }
        Self(result)
    }

    /// Every limb of `self` with its bits flipped.
    pub fn not(self) -> (r: Self)
        ensures
            forall|i: int| 0 <= i < T ==> r.0[i] == !self.0[i],
    {
        let mut result = [0u64;T];
        let mut i: usize = 0;
        while i < T
            invariant
                i <= T,
                forall|j: int| 0 <= j < i ==> result[j] == !self.0[j],
            decreases T - i,
        {
            result[i] = !self.0[i];
            i = i + 1;
        }
        Self(result)
    }

    /// Whether `self` is the smaller number; limbs are compared from the
    /// most significant down.
    pub fn lt(&self, other: &Self) -> (r: bool)
        ensures
            r == (self@ < other@),
    {
        let mut i: usize = 0;
        while i < T
            invariant
                i <= T,
                forall|j: int| 0 <= j < i ==> self.0[j] == other.0[j],
            decreases T - i,
        {
            if self.0[i] < other.0[i] {
                proof {
                    lemma_first_difference(self.0@, other.0@, i as int, T as nat);
                }
                return true;
            }
            if self.0[i] > other.0[i] {
                proof {
                    lemma_first_difference(other.0@, self.0@, i as int, T as nat);
                }
                return false;
            }
            i = i + 1;
        }
        proof {
            lemma_low_value_same(self.0@, other.0@, T as nat);
        }
        false
    }

    /// Whether `self` is at most `other`.
    pub fn le(&self, other: &Self) -> (r: bool)
        ensures
            r == (self@ <= other@),
    {
        !other.lt(self)
    }

    /// Whether `self` is the larger number.
    pub fn gt(&self, other: &Self) -> (r: bool)
        ensures
            r == (self@ > other@),
    {
        other.lt(self)
    }

    /// Whether `self` is at least `other`.
    pub fn ge(&self, other: &Self) -> (r: bool)
        ensures
            r == (self@ >= other@),
    {
        !self.lt(other)
    }

    /// The sum limb by limb from the least significant up, and the carry
    /// out of the most significant limb.
    pub fn overflowing_add(self, rhs: Self) -> (r: (Self, u64))
        ensures
            r.0@ + r.1 * Self::modulus() == self@ + rhs@,
            r.1 <= 1,
            0 <= r.0@ < Self::modulus(),
    {
        let mut res = [0u64;T];
        let mut carry: u64 = 0;
        let mut done: usize = 0;
        while done < T
            invariant
                done <= T,
                carry <= 1,
                low_value(res@, done as nat) + carry * weight(done as nat) == low_value(
                    self.0@,
                    done as nat,
                ) + low_value(rhs.0@, done as nat),
            decreases T - done,
        {
            let i = T - 1 - done;
            let ghost before = res@;
            let ghost carry_in = carry as int;
            let (sum, out) = limb_add(self.0[i], rhs.0[i], carry);
            res[i] = sum;
            carry = out;
            proof {
                lemma_low_value_same(before, res@, done as nat);
                lemma_weight_positive(done as nat);
                let w = weight(done as nat);
                let a = self.0[i as int] as int;
                let b = rhs.0[i as int] as int;
                assert((sum + out * base()) * w == (a + b + carry_in) * w);
                assert((sum + out * base()) * w == sum * w + out * (base() * w))
                    by (nonlinear_arith);
                assert((a + b + carry_in) * w == a * w + b * w + carry_in * w)
                    by (nonlinear_arith);
            }
            done = done + 1;
        }
        proof {
            lemma_low_value_bound(res@, T as nat);
        }
        (Self(res), carry)
    }

    /// The sum, wrapped around at the width of the type.
    pub fn add(self, rhs: Self) -> (r: Self)
        ensures
            r@ == (self@ + rhs@) % Self::modulus(),
    {
        let (sum, carry) = self.overflowing_add(rhs);
        proof {
            lemma_wrap(sum@, carry as int, Self::modulus());
        }
        sum
    }

    /// The sum, or nothing where it does not fit.
    pub fn checked_add(&self, rhs: &Self) -> (r: Option<Self>)
        ensures
            self@ + rhs@ < Self::modulus() ==> r.is_some() && r.unwrap()@ == self@ + rhs@,
            self@ + rhs@ >= Self::modulus() ==> r.is_none(),
    {
        let (sum, carry) = self.overflowing_add(*rhs);
        proof {
            self.lemma_in_range();
            rhs.lemma_in_range();
            assert(carry * Self::modulus() == if carry == 0 {
                0
            } else {
                Self::modulus()
            }) by (nonlinear_arith)
                requires
                    carry <= 1,
            ;
        }
        if carry > 0 {
            None
        } else {
            Some(sum)
        }
    }

    /// The sum, or the largest value where it does not fit.
    pub fn saturating_add(self, rhs: Self) -> (r: Self)
        ensures
            self@ + rhs@ < Self::modulus() ==> r@ == self@ + rhs@,
            self@ + rhs@ >= Self::modulus() ==> r@ == Self::modulus() - 1,
    {
        match self.checked_add(&rhs) {
            Some(sum) => sum,
            None => Self::max_value(),
        }
    }

    /// The difference limb by limb from the least significant up, and the
    /// borrow out of the most significant limb.
    pub fn overflowing_sub(self, rhs: Self) -> (r: (Self, u64))
        ensures
            r.0@ - r.1 * Self::modulus() == self@ - rhs@,
            r.1 <= 1,
            0 <= r.0@ < Self::modulus(),
    {
        let mut res = [0u64;T];
        let mut borrow: u64 = 0;
        let mut done: usize = 0;
        while done < T
            invariant
                done <= T,
                borrow <= 1,
                low_value(res@, done as nat) - borrow * weight(done as nat) == low_value(
                    self.0@,
                    done as nat,
                ) - low_value(rhs.0@, done as nat),
            decreases T - done,
        {
            let i = T - 1 - done;
            let ghost before = res@;
            let ghost borrow_in = borrow as int;
            let (diff, out) = limb_sub(self.0[i], rhs.0[i], borrow);
            res[i] = diff;
            borrow = out;
            proof {
                lemma_low_value_same(before, res@, done as nat);
                lemma_weight_positive(done as nat);
                let w = weight(done as nat);
                let a = self.0[i as int] as int;
                let b = rhs.0[i as int] as int;
                assert((diff - out * base()) * w == (a - b - borrow_in) * w);
                assert((diff - out * base()) * w == diff * w - out * (base() * w))
                    by (nonlinear_arith);
                assert((a - b - borrow_in) * w == a * w - b * w - borrow_in * w)
                    by (nonlinear_arith);
            }
            done = done + 1;
        }
        proof {
            lemma_low_value_bound(res@, T as nat);
        }
        (Self(res), borrow)
    }

    /// The difference, wrapped around at the width of the type.
    pub fn sub(self, rhs: Self) -> (r: Self)
        ensures
            r@ == (self@ - rhs@) % Self::modulus(),
    {
        let (diff, borrow) = self.overflowing_sub(rhs);
        proof {
            lemma_wrap(diff@, -(borrow as int), Self::modulus());
            assert(diff@ + (-(borrow as int)) * Self::modulus() == diff@ - borrow * Self::modulus())
                by (nonlinear_arith);
        }
        diff
    }

    /// The difference, or nothing where `rhs` is the larger.
    pub fn checked_sub(&self, rhs: &Self) -> (r: Option<Self>)
        ensures
            self@ >= rhs@ ==> r.is_some() && r.unwrap()@ == self@ - rhs@,
            self@ < rhs@ ==> r.is_none(),
    {
        let (diff, borrow) = self.overflowing_sub(*rhs);
        proof {
            self.lemma_in_range();
            rhs.lemma_in_range();
            assert(borrow * Self::modulus() == if borrow == 0 {
                0
            } else {
                Self::modulus()
            }) by (nonlinear_arith)
                requires
                    borrow <= 1,
            ;
        }
        if borrow > 0 {
            None
        } else {
            Some(diff)
        }
    }

    /// The difference, or zero where `rhs` is the larger.
    pub fn saturating_sub(self, rhs: Self) -> (r: Self)
        ensures
            self@ >= rhs@ ==> r@ == self@ - rhs@,
            self@ < rhs@ ==> r@ == 0,
    {
        match self.checked_sub(&rhs) {
            Some(diff) => diff,
            None => Self::zero(),
        }
    }

    /// The smallest value of the type: zero.
    pub fn min_value() -> (r: Self)
        ensures
            r@ == 0,
    {
        Self::zero()
    }

    /// The integer with every bit set.
    pub fn max_value() -> (r: Self)
        ensures
            r@ == Self::modulus() - 1,
            forall|i: int| 0 <= i < T ==> r.0[i] == u64::MAX,
    {
        let r = Self([u64::MAX;T]);
        proof {
            lemma_low_value_max(r.0@, T as nat);
        }
        r
    }

    /// Every value of the type lies below its modulus.
    pub proof fn lemma_in_range(self)
        ensures
            0 <= self@ < Self::modulus(),
    {
        lemma_low_value_bound(self.0@, T as nat);
    }
}

/// Limbs that are all at their largest stand for the largest number.
pub proof fn lemma_low_value_max(a: Seq<u64>, k: nat)
    requires
        k <= a.len(),
        forall|i: int| a.len() - k <= i < a.len() ==> a[i] == u64::MAX,
    ensures
        low_value(a, k) == weight(k) - 1,
    decreases k,
{
    if k > 0 {
        lemma_low_value_max(a, (k - 1) as nat);
        let w = weight((k - 1) as nat);
        assert((base() - 1) * w == base() * w - w) by (nonlinear_arith);
    }
}

/// Putting `limb` where a zero limb stood adds the limb times its weight.
pub proof fn lemma_value_update(a: Seq<u64>, i: int, limb: u64)
    requires
        0 <= i < a.len(),
        a[i] == 0,
    ensures
        limbs_value(a.update(i, limb)) == limbs_value(a) + limb * weight((a.len() - 1 - i) as nat),
{
    lemma_value_update_low(a, i, limb, a.len());
}

/// Putting `limb` where a zero limb stood adds the limb times its weight to
/// the least significant limbs that hold the place.
pub proof fn lemma_value_update_low(a: Seq<u64>, i: int, limb: u64, k: nat)
    requires
        0 <= i < a.len(),
        a[i] == 0,
        k <= a.len(),
    ensures
        low_value(a.update(i, limb), k) == low_value(a, k) + if a.len() - k <= i {
            limb * weight((a.len() - 1 - i) as nat)
        } else {
            0
        },
    decreases k,
{
    if k > 0 {
        lemma_value_update_low(a, i, limb, (k - 1) as nat);
        if a.len() - k == i {
            assert(0 * weight((k - 1) as nat) == 0);
        }
    }
}

/// A number whose limbs are each at most those of another is at most the
/// other.
pub proof fn lemma_limbs_monotone(a: Seq<u64>, b: Seq<u64>, k: nat)
    requires
        a.len() == b.len(),
        k <= a.len(),
        forall|i: int| a.len() - k <= i < a.len() ==> a[i] <= b[i],
    ensures
        low_value(a, k) <= low_value(b, k),
    decreases k,
{
    if k > 0 {
        lemma_limbs_monotone(a, b, (k - 1) as nat);
        lemma_weight_positive((k - 1) as nat);
        let x = a[a.len() - k] as int;
        let y = b[a.len() - k] as int;
        let w = weight((k - 1) as nat);
        assert(x * w <= y * w) by (nonlinear_arith)
            requires
                x <= y,
                w >= 1,
        ;
    }
}

/// A number in range plus a multiple of the modulus wraps to the number.
pub proof fn lemma_wrap(r: int, k: int, m: int)
    requires
        0 <= r < m,
    ensures
        (r + k * m) % m == r,
{
    vstd::arithmetic::div_mod::lemma_fundamental_div_mod_converse(r + k * m, m, k, r);
}

/// The number that the `k` most significant limbs stand for.
pub open spec fn high_value(limbs: Seq<u64>, k: nat) -> int
    decreases k,
{
    if k == 0 || k > limbs.len() {
        0
    } else {
        high_value(limbs, (k - 1) as nat) * base() + limbs[k - 1]
    }
}

/// A number is its most significant limbs, moved up by the limbs below
/// them, plus those limbs.
pub proof fn lemma_split(limbs: Seq<u64>, k: nat)
    requires
        k <= limbs.len(),
    ensures
        limbs_value(limbs) == high_value(limbs, k) * weight((limbs.len() - k) as nat) + low_value(
            limbs,
            (limbs.len() - k) as nat,
        ),
        0 <= high_value(limbs, k),
    decreases k,
{
    if k > 0 {
        let j = (k - 1) as nat;
        lemma_split(limbs, j);
        let rest = (limbs.len() - k) as nat;
        lemma_weight_positive(rest);
        let h = high_value(limbs, j);
        let w = weight(rest);
        let x = limbs[k - 1] as int;
        assert((h * base() + x) * w == h * (base() * w) + x * w) by (nonlinear_arith);
        assert(h * base() + x >= 0) by (nonlinear_arith)
            requires
                h >= 0,
                x >= 0,
        ;
    }
}

/// The most significant limbs alone decide their value.
pub proof fn lemma_high_value_same(a: Seq<u64>, b: Seq<u64>, k: nat)
    requires
        a.len() == b.len(),
        k <= a.len(),
        forall|i: int| 0 <= i < k ==> a[i] == b[i],
    ensures
        high_value(a, k) == high_value(b, k),
    decreases k,
{
    if k > 0 {
        lemma_high_value_same(a, b, (k - 1) as nat);
    }
}

/// Weights multiply: the limb with `j + k` limbs below it weighs what the
/// limbs with `j` and with `k` below them weigh together.
pub proof fn lemma_weight_adds(j: nat, k: nat)
    ensures
        weight(j + k) == weight(j) * weight(k),
    decreases j,
{
    if j > 0 {
        lemma_weight_adds((j - 1) as nat, k);
        let a = weight((j - 1) as nat);
        let b = weight(k);
        assert(base() * (a * b) == (base() * a) * b) by (nonlinear_arith);
    }
}

/// Putting `limb` in place of limb `i` changes the number by the
/// difference of the limbs times their weight.
pub proof fn lemma_value_replace(a: Seq<u64>, i: int, limb: u64)
    requires
        0 <= i < a.len(),
    ensures
        limbs_value(a.update(i, limb)) == limbs_value(a) + (limb - a[i]) * weight(
            (a.len() - 1 - i) as nat,
        ),
{
    lemma_value_replace_low(a, i, limb, a.len());
}

/// Putting `limb` in place of limb `i` changes the least significant limbs
/// that hold the place by the difference of the limbs times their weight.
pub proof fn lemma_value_replace_low(a: Seq<u64>, i: int, limb: u64, k: nat)
    requires
        0 <= i < a.len(),
        k <= a.len(),
    ensures
        low_value(a.update(i, limb), k) == low_value(a, k) + if a.len() - k <= i {
            (limb - a[i]) * weight((a.len() - 1 - i) as nat)
        } else {
            0
        },
    decreases k,
{
    if k > 0 {
        lemma_value_replace_low(a, i, limb, (k - 1) as nat);
        if a.len() - k == i {
            let w = weight((k - 1) as nat);
            let x = limb as int;
            let y = a[i] as int;
            assert(x * w == y * w + (x - y) * w) by (nonlinear_arith);
        }
    }
}

/// The limb at `i`; zero beyond either end.
pub open spec fn limb_at(limbs: Seq<u64>, i: int) -> u64 {
    if 0 <= i < limbs.len() {
        limbs[i]
    } else {
        0
    }
}

/// Limb `i` of the limbs moved `shift` bits towards the most significant
/// end, zeros moving in.
pub open spec fn shl_limb(limbs: Seq<u64>, i: int, shift: nat) -> u64 {
    let whole = (shift / 64) as int;
    let bits = (shift % 64) as u64;
    if bits == 0 {
        limb_at(limbs, i + whole)
    } else {
        (limb_at(limbs, i + whole) << bits) | (limb_at(limbs, i + whole + 1) >> ((64 - bits) as u64))
    }
}

/// Limb `i` of the limbs moved `shift` bits towards the least significant
/// end, zeros moving in.
pub open spec fn shr_limb(limbs: Seq<u64>, i: int, shift: nat) -> u64 {
    let whole = (shift / 64) as int;
    let bits = (shift % 64) as u64;
    if bits == 0 {
        limb_at(limbs, i - whole)
    } else {
        (limb_at(limbs, i - whole) >> bits) | (limb_at(limbs, i - whole - 1) << ((64 - bits) as u64))
    }
}

/// Doubles a limb and adds a bit; hands back the limb of the result and the
/// bit that leaves at the top.
pub fn limb_double(limb: u64, carry: u64) -> (r: (u64, u64))
    requires
        carry <= 1,
    ensures
        r.0 + r.1 * base() == 2 * limb + carry,
        r.1 <= 1,
        r.0 == (limb << 1) | carry,
        r.1 == (limb >> 63) & 1,
{
    let low = (limb << 1) | carry;
    let high = (limb >> 63) & 1;
    proof {
        assert(high <= 1 && ((limb << 1) | carry) as u128 + (high as u128)
            * 0x1_0000_0000_0000_0000u128 == 2 * (limb as u128) + (carry as u128))
            by (bit_vector)
            requires
                carry <= 1,
                high == (limb >> 63) & 1,
        ;
    }
    (low, high)
}

/// Halves a limb, a bit moving in at the top; hands back the limb of the
/// result and the bit that leaves at the bottom.
pub fn limb_halve(limb: u64, carry: u64) -> (r: (u64, u64))
    requires
        carry <= 1,
    ensures
        2 * r.0 + r.1 == limb + carry * base(),
        r.1 <= 1,
        r.0 == (limb >> 1) | (carry << 63),
        r.1 == limb & 1,
{
    let high = (limb >> 1) | (carry << 63);
    let low = limb & 1;
    proof {
        assert(low <= 1 && 2 * (((limb >> 1) | (carry << 63)) as u128) + (low as u128) == (
        limb as u128) + (carry as u128) * 0x1_0000_0000_0000_0000u128) by (bit_vector)
            requires
                carry <= 1,
                low == limb & 1,
        ;
    }
    (high, low)
}

impl<const T: usize> SizedInt<T> {
    /// Twice the number, as far as it fits, and the bit that does not.
    pub fn shl1_carry(&self) -> (r: (Self, u64))
        ensures
            r.0@ + r.1 * Self::modulus() == 2 * self@,
            r.1 <= 1,
    {
        let mut result = [0u64;T];
        let mut carry: u64 = 0;
        let mut done: usize = 0;
        while done < T
            invariant
                done <= T,
                carry <= 1,
                low_value(result@, done as nat) + carry * weight(done as nat) == 2 * low_value(
                    self.0@,
                    done as nat,
                ),
            decreases T - done,
        {
            let i = T - 1 - done;
            let ghost before = result@;
            let ghost carry_in = carry as int;
            let (low, out) = limb_double(self.0[i], carry);
            result[i] = low;
            carry = out;
            proof {
                lemma_low_value_same(before, result@, done as nat);
                lemma_weight_positive(done as nat);
                let w = weight(done as nat);
                let a = self.0[i as int] as int;
                assert((low + out * base()) * w == (2 * a + carry_in) * w);
                assert((low + out * base()) * w == low * w + out * (base() * w))
                    by (nonlinear_arith);
                assert((2 * a + carry_in) * w == 2 * (a * w) + carry_in * w) by (nonlinear_arith);
            }
            done = done + 1;
        }
        (Self(result), carry)
    }

    /// Twice the number, wrapped around at the width of the type.
    pub fn shl1(&self) -> (r: Self)
        ensures
            r@ == (2 * self@) % Self::modulus(),
    {
        let (twice, carry) = self.shl1_carry();
        proof {
            twice.lemma_in_range();
            lemma_wrap(twice@, carry as int, Self::modulus());
        }
        twice
    }

    /// Half the number, rounded down.
    pub fn shr1(&self) -> (r: Self)
        ensures
            r@ == self@ / 2,
    {
        let mut result = [0u64;T];
        let mut carry: u64 = 0;
        let mut i: usize = 0;
        while i < T
            invariant
                i <= T,
                carry <= 1,
                2 * high_value(result@, i as nat) + carry == high_value(self.0@, i as nat),
            decreases T - i,
        {
            let ghost before = result@;
            let ghost carry_in = carry as int;
            let (high, out) = limb_halve(self.0[i], carry);
            result[i] = high;
            carry = out;
            proof {
                lemma_high_value_same(before, result@, i as nat);
                let h = high_value(before, i as nat);
                assert(2 * (h * base() + high) + out == (2 * h + carry_in) * base() + self.0[i as int])
                    by (nonlinear_arith)
                    requires
                        2 * high + out == self.0[i as int] + carry_in * base(),
                ;
            }
            i = i + 1;
        }
        proof {
            lemma_split(result@, T as nat);
            lemma_split(self.0@, T as nat);
            assert(weight(0) == 1);
            assert(low_value(result@, 0) == 0);
            assert(low_value(self.0@, 0) == 0);
            assert(result@.len() == T);
            assert(self.0@.len() == T);
            assert(high_value(result@, T as nat) * 1 == high_value(result@, T as nat));
            assert(high_value(self.0@, T as nat) * 1 == high_value(self.0@, T as nat));
            assert(limbs_value(result@) == high_value(result@, T as nat));
            assert(limbs_value(self.0@) == high_value(self.0@, T as nat));
        }
        Self(result)
    }

    /// The number times two to the power of `shift`, wrapped around at the
    /// width of the type: the bits move `shift` places up, and what leaves
    /// at the top is lost.
    pub fn shl(self, shift: u32) -> (r: Self)
        ensures
            r@ == (self@ * pow2(shift as nat)) % Self::modulus(),
            forall|i: int| 0 <= i < T ==> r.0[i] == shl_limb(self.0@, i, shift as nat),
    {
        let mut result = self.0;
        if T == 0 {
            proof {
                crate::bitboard::shifts::lemma_shl_value(self.0@, result@, shift as nat);
            }
            return Self(result);
        }
        let whole = (shift / 64) as usize;
        let bits = (shift % 64) as u64;
        let mut moved: usize = 0;
        while moved < whole && moved < T
            invariant
                T >= 1,
                moved <= whole,
                moved <= T,
                forall|i: int| 0 <= i < T ==> result[i] == limb_at(self.0@, i + moved),
            decreases T - moved,
        {
            let mut i: usize = 0;
            while i < T - 1
                invariant
                    T >= 1,
                    i <= T - 1,
                    moved < T,
                    forall|j: int| 0 <= j < i ==> result[j] == limb_at(self.0@, j + moved + 1),
                    forall|j: int| i <= j < T ==> result[j] == limb_at(self.0@, j + moved),
                decreases T - i,
            {
                result[i] = result[i + 1];
                i = i + 1;
            }
            result[T - 1] = 0;
            moved = moved + 1;
        }
        proof {
            assert forall|i: int| 0 <= i < T implies result[i] == limb_at(self.0@, i + whole) by {
                if moved < whole {
                    assert(moved == T);
                }
            }
        }
        if bits > 0 {
            let ghost before = result@;
            let mut carry: u64 = 0;
            let mut done: usize = 0;
            proof {
                assert(0u64 >> ((64 - bits) as u64) == 0) by (bit_vector);
            }
            while done < T
                invariant
                    done <= T,
                    0 < bits < 64,
                    bits == shift % 64,
                    whole == shift / 64,
                    before.len() == T,
                    forall|i: int| 0 <= i < T ==> before[i] == limb_at(self.0@, i + whole),
                    forall|i: int| 0 <= i < T - done ==> result[i] == before[i],
                    forall|i: int|
                        T - done <= i < T ==> result[i] == shl_limb(self.0@, i, shift as nat),
                    carry == limb_at(before, T - done) >> ((64 - bits) as u64),
                decreases T - done,
            {
                let i = T - 1 - done;
                let ghost old_carry = carry;
                let new_carry = result[i] >> (64 - bits);
                result[i] = (result[i] << bits) | carry;
                carry = new_carry;
                proof {
                    assert(limb_at(before, i + 1) == limb_at(self.0@, i + whole + 1));
                    assert(before[i as int] == limb_at(self.0@, i + whole));
                    assert(result[i as int] == (before[i as int] << bits) | old_carry);
                    assert((shift as nat / 64) as int == whole);
                    assert(((shift as nat) % 64) as u64 == bits);
                    assert(result[i as int] == shl_limb(self.0@, i as int, shift as nat));
                }
                done = done + 1;
            }
        }
        proof {
            if bits == 0 {
                assert((shift as nat % 64) as u64 == 0);
            }
            crate::bitboard::shifts::lemma_shl_value(self.0@, result@, shift as nat);
        }
        Self(result)
    }

    /// The number divided by two to the power of `shift`, rounded down: the
    /// bits move `shift` places down, and what leaves at the bottom is
    /// lost.
    pub fn shr(self, shift: u32) -> (r: Self)
        ensures
            r@ == self@ / (pow2(shift as nat) as int),
            forall|i: int| 0 <= i < T ==> r.0[i] == shr_limb(self.0@, i, shift as nat),
    {
        let mut result = self.0;
        if T == 0 {
            proof {
                crate::bitboard::shifts::lemma_shr_value(self.0@, result@, shift as nat);
            }
            return Self(result);
        }
        let whole = (shift / 64) as usize;
        let bits = (shift % 64) as u64;
        let mut moved: usize = 0;
        while moved < whole && moved < T
            invariant
                T >= 1,
                moved <= whole,
                moved <= T,
                forall|i: int| 0 <= i < T ==> result[i] == limb_at(self.0@, i - moved),
            decreases T - moved,
        {
            let mut i: usize = T - 1;
            while i > 0
                invariant
                    T >= 1,
                    i <= T - 1,
                    moved < T,
                    forall|j: int| i < j < T ==> result[j] == limb_at(self.0@, j - moved - 1),
                    forall|j: int| 0 <= j <= i ==> result[j] == limb_at(self.0@, j - moved),
                decreases i,
            {
                result[i] = result[i - 1];
                i = i - 1;
            }
            result[0] = 0;
            moved = moved + 1;
        }
        proof {
            assert forall|i: int| 0 <= i < T implies result[i] == limb_at(self.0@, i - whole) by {
                if moved < whole {
                    assert(moved == T);
                }
            }
        }
        if bits > 0 {
            let ghost before = result@;
            let mut carry: u64 = 0;
            let mut i: usize = 0;
            proof {
                assert(0u64 << ((64 - bits) as u64) == 0) by (bit_vector);
            }
            while i < T
                invariant
                    i <= T,
                    0 < bits < 64,
                    bits == shift % 64,
                    whole == shift / 64,
                    before.len() == T,
                    forall|j: int| 0 <= j < T ==> before[j] == limb_at(self.0@, j - whole),
                    forall|j: int| i <= j < T ==> result[j] == before[j],
                    forall|j: int| 0 <= j < i ==> result[j] == shr_limb(self.0@, j, shift as nat),
                    carry == limb_at(before, i - 1) << ((64 - bits) as u64),
                decreases T - i,
            {
                let ghost old_carry = carry;
                let new_carry = result[i] << (64 - bits);
                result[i] = (result[i] >> bits) | carry;
                carry = new_carry;
                proof {
                    assert(limb_at(before, i - 1) == limb_at(self.0@, i - whole - 1));
                    assert(before[i as int] == limb_at(self.0@, i - whole));
                    assert(result[i as int] == (before[i as int] >> bits) | old_carry);
                    assert((shift as nat / 64) as int == whole);
                    assert(((shift as nat) % 64) as u64 == bits);
                    assert(result[i as int] == shr_limb(self.0@, i as int, shift as nat));
                }
                i = i + 1;
            }
        }
        proof {
            if bits == 0 {
                assert((shift as nat % 64) as u64 == 0);
            }
            crate::bitboard::shifts::lemma_shr_value(self.0@, result@, shift as nat);
        }
        Self(result)
    }

    /// The number if its least significant limb holds all of it.
    pub fn to_u64(&self) -> (r: Option<u64>)
        ensures
            self@ < base() ==> r == Some(self@ as u64),
            self@ >= base() ==> r.is_none(),
    {
        if T == 0 {
            return Some(0);
        }
        let mut i: usize = 0;
        while i < T - 1
            invariant
                T >= 1,
                i <= T - 1,
                forall|j: int| 0 <= j < i ==> self.0[j] == 0,
            decreases T - i,
        {
            if self.0[i] != 0 {
                proof {
                    self.lemma_high_limb(i as int);
                }
                return None;
            }
            i = i + 1;
        }
        proof {
            let low = self.0@.update(T - 1, 0u64);
            lemma_low_value_zero(low, T as nat);
            lemma_value_update(low, T - 1, self.0[T - 1]);
            assert(low.update(T - 1, self.0[T - 1]) =~= self.0@);
            assert(weight(0) == 1);
        }
        Some(self.0[T - 1])
    }
}

/// Multiplies two limbs and adds two limbs; hands back the limb of the
/// result and what goes on to the next limb.
pub fn limb_mul(a: u64, b: u64, add: u64, carry: u64) -> (r: (u64, u64))
    ensures
        r.0 + r.1 * base() == a * b + add + carry,
{
    proof {
        assert(a * b <= 0xffff_ffff_ffff_ffff * 0xffff_ffff_ffff_ffff) by (nonlinear_arith)
            requires
                0 <= a <= 0xffff_ffff_ffff_ffff,
                0 <= b <= 0xffff_ffff_ffff_ffff,
        ;
    }
    let total: u128 = (a as u128) * (b as u128) + (add as u128) + (carry as u128);
    let low: u64 = (total % 0x1_0000_0000_0000_0000u128) as u64;
    let high: u64 = (total / 0x1_0000_0000_0000_0000u128) as u64;
    (low, high)
}

/// Weights grow with the number of limbs below.
pub proof fn lemma_weight_monotone(j: nat, k: nat)
    requires
        j <= k,
    ensures
        weight(j) <= weight(k),
    decreases k - j,
{
    if j < k {
        lemma_weight_monotone(j + 1, k);
        lemma_weight_positive(j);
    }
}

impl<const T: usize> SizedInt<T> {
    /// The product, wrapped around at the width of the type: every limb of
    /// `rhs`, from the least significant up, is multiplied with the limbs
    /// of `self` and added in at its place, the carries moving up.
    pub fn mul(self, rhs: Self) -> (r: Self)
        ensures
            r@ == (self@ * rhs@) % Self::modulus(),
    {
        let mut res = [0u64;T];
        let ghost mut dropped: int = 0;
        let mut pj: usize = 0;
        proof {
            lemma_low_value_zero(res@, T as nat);
            assert(self@ * 0 == 0);
        }
        while pj < T
            invariant
                pj <= T,
                limbs_value(res@) + dropped * Self::modulus() == self@ * low_value(
                    rhs.0@,
                    pj as nat,
                ),
            decreases T - pj,
        {
            let bj = rhs.0[T - 1 - pj];
            let mut carry: u64 = 0;
            let mut pi: usize = 0;
            let ghost low_b = low_value(rhs.0@, pj as nat);
            proof {
                assert(0 * weight(pj as nat) == 0);
                assert(0 * bj * weight(pj as nat) == 0);
                assert(low_value(self.0@, 0) * bj * weight(pj as nat) == 0) by (nonlinear_arith)
                    requires
                        low_value(self.0@, 0) == 0,
                ;
            }
            while pi < T - pj
                invariant
                    pj < T,
                    pi <= T - pj,
                    bj == rhs.0[T - 1 - pj],
                    low_b == low_value(rhs.0@, pj as nat),
                    limbs_value(res@) + carry * weight((pi + pj) as nat) + dropped
                        * Self::modulus() == self@ * low_b + low_value(self.0@, pi as nat) * bj
                        * weight(pj as nat),
                decreases T - pj - pi,
            {
                let k = pi + pj;
                let ghost before = res@;
                let ghost carry_in = carry as int;
                let (low, high) = limb_mul(self.0[T - 1 - pi], bj, res[T - 1 - k], carry);
                res[T - 1 - k] = low;
                carry = high;
                proof {
                    let a = self.0[T - 1 - pi] as int;
                    let b = bj as int;
                    let old_limb = before[T - 1 - k] as int;
                    let wk = weight(k as nat);
                    let wi = weight(pi as nat);
                    let wj = weight(pj as nat);
                    let la = low_value(self.0@, pi as nat);
                    lemma_value_replace(before, T - 1 - k, low);
                    assert(before.update(T - 1 - k, low) =~= res@);
                    lemma_weight_positive(k as nat);
                    lemma_weight_adds(pi as nat, pj as nat);
                    assert(low_value(self.0@, (pi + 1) as nat) == la + a * wi);
                    assert((low - old_limb) * wk + high * (base() * wk) == (a * b + carry_in) * wk)
                        by (nonlinear_arith)
                        requires
                            low + high * base() == a * b + old_limb + carry_in,
                    ;
                    assert((a * b + carry_in) * wk == a * b * (wi * wj) + carry_in * wk)
                        by (nonlinear_arith)
                        requires
                            wk == wi * wj,
                    ;
                    assert((la + a * wi) * b * wj == la * b * wj + a * b * (wi * wj))
                        by (nonlinear_arith);
                }
                pi = pi + 1;
            }
            proof {
                // What of `self` lies above the limbs that were multiplied
                // only adds multiples of the modulus.
                let rest = (T - pj) as nat;
                lemma_split(self.0@, pj as nat);
                lemma_weight_adds(rest, pj as nat);
                let high_a = high_value(self.0@, pj as nat);
                let low_a = low_value(self.0@, rest);
                let wr = weight(rest);
                let wj = weight(pj as nat);
                let b = bj as int;
                let m = Self::modulus();
                assert(self@ == high_a * wr + low_a);
                assert(m == wr * wj);
                assert(low_value(rhs.0@, (pj + 1) as nat) == low_b + b * wj);
                let x = b * wj;
                let total = self@;
                assert(total * (low_b + x) == total * low_b + total * x) by (nonlinear_arith);
                assert((high_a * wr + low_a) * x == high_a * (wr * x) + low_a * x)
                    by (nonlinear_arith);
                assert(wr * x == b * m) by (nonlinear_arith)
                    requires
                        x == b * wj,
                        m == wr * wj,
                ;
                assert(high_a * (b * m) == (high_a * b) * m) by (nonlinear_arith);
                assert(low_a * x == low_a * b * wj) by (nonlinear_arith)
                    requires
                        x == b * wj,
                ;
                assert(self@ * (low_b + b * wj) == self@ * low_b + low_a * b * wj + (high_a * b)
                    * m);
                dropped = dropped + carry + high_a * b;
                assert(limbs_value(res@) + dropped * m == self@ * (low_b + b * wj))
                    by (nonlinear_arith)
                    requires
                        limbs_value(res@) + carry * m + (dropped - carry - high_a * b) * m == self@
                            * low_b + low_a * b * wj,
                        self@ * (low_b + b * wj) == self@ * low_b + low_a * b * wj + (high_a * b)
                            * m,
                ;
            }
            pj = pj + 1;
        }
        proof {
            lemma_low_value_bound(res@, T as nat);
            lemma_weight_positive(T as nat);
            let m = Self::modulus();
            assert(self@ * rhs@ == dropped * m + limbs_value(res@));
            assert(m * dropped == dropped * m) by (nonlinear_arith);
            lemma_fundamental_div_mod_converse(self@ * rhs@, m, dropped, limbs_value(res@));
        }
        Self(res)
    }

    /// The quotient and the remainder of the division by `rhs`, found bit
    /// by bit from the top: the remainder so far is doubled, takes the next
    /// bit of `self`, and gives up `rhs` where it has reached it.
    pub fn div_rem(self, rhs: Self) -> (r: (Self, Self))
        requires
            rhs@ != 0,
        ensures
            r.0@ == self@ / rhs@,
            r.1@ == self@ % rhs@,
    {
        proof {
            if T == 0 {
                assert(rhs@ == 0);
            }
            rhs.lemma_in_range();
            self.lemma_in_range();
            lemma2_to64();
            lemma2_to64_rest();
        }
        let mut quotient = Self::zero();
        let mut remainder = Self::zero();
        let mut work = self;
        let ghost mut consumed: int = 0;
        let ghost mut power: int = 1;
        let ghost m = Self::modulus();
        let mut limb: usize = 0;
        proof {
            assert(weight(0) == 1);
            assert(self@ * 1 == 0 * m + self@);
            assert(0 == 0 * rhs@ + 0);
        }
        while limb < T
            invariant
                T >= 1,
                limb <= T,
                m == Self::modulus(),
                0 < rhs@ < m,
                power == weight(limb as nat),
                self@ * power == consumed * m + work@,
                consumed == quotient@ * rhs@ + remainder@,
                0 <= remainder@ < rhs@,
                0 <= quotient@,
                0 <= consumed < power,
            decreases T - limb,
        {
            let mut bit: u8 = 0;
            let ghost start = power;
            proof {
                lemma2_to64();
                lemma2_to64_rest();
                assert(start * 1 == start);
            }
            while bit < 64
                invariant
                    T >= 1,
                    limb < T,
                    bit <= 64,
                    m == Self::modulus(),
                    0 < rhs@ < m,
                    start == weight(limb as nat),
                    power == start * pow2(bit as nat),
                    pow2(64) == base(),
                    pow2(0) == 1,
                    self@ * power == consumed * m + work@,
                    consumed == quotient@ * rhs@ + remainder@,
                    0 <= remainder@ < rhs@,
                    0 <= quotient@,
                    0 <= consumed < power,
                decreases 64 - bit,
            {
                let ghost old_work = work@;
                let ghost old_rem = remainder@;
                let ghost old_quot = quotient@;
                proof {
                    // Twice the power of two is still within the modulus.
                    lemma_pow2_unfold((bit + 1) as nat);
                    if bit + 1 < 64 {
                        vstd::arithmetic::power2::lemma_pow2_strictly_increases(
                            (bit + 1) as nat,
                            64,
                        );
                    }
                    lemma_pow2_pos(bit as nat);
                    lemma_weight_monotone((limb + 1) as nat, T as nat);
                    lemma_weight_positive(limb as nat);
                    let p = pow2(bit as nat) as int;
                    assert(2 * power <= m) by (nonlinear_arith)
                        requires
                            power == start * p,
                            2 * p <= base(),
                            start >= 1,
                            base() * start <= m,
                    ;
                    assert(start * (2 * p) == 2 * (start * p)) by (nonlinear_arith);
                }
                let (doubled_work, top) = work.shl1_carry();
                work = doubled_work;
                let (doubled, over) = remainder.shl1_carry();
                let (taken, more) = doubled.overflowing_add(Self::from(top));
                let reached = over + more > 0 || taken.ge(&rhs);
                let ghost value = 2 * old_rem + top;
                proof {
                    assert(value == taken@ + (over + more) * m) by (nonlinear_arith)
                        requires
                            doubled@ + over * m == 2 * old_rem,
                            taken@ + more * m == doubled@ + top,
                            value == 2 * old_rem + top,
                    ;
                    assert((over + more) * m == if over + more == 0 {
                        0
                    } else if over + more == 1 {
                        m
                    } else {
                        2 * m
                    }) by (nonlinear_arith)
                        requires
                            0 <= over + more <= 2,
                    ;
                }
                if reached {
                    remainder = taken.sub(rhs);
                    proof {
                        taken.lemma_in_range();
                        assert(0 <= value - rhs@ < m);
                        if over + more == 0 {
                            vstd::arithmetic::div_mod::lemma_small_mod(
                                (taken@ - rhs@) as nat,
                                m as nat,
                            );
                        } else {
                            lemma_wrap(value - rhs@, -1, m);
                            assert(value - rhs@ + (-1) * m == taken@ - rhs@);
                        }
                        assert(remainder@ == value - rhs@);
                    }
                } else {
                    remainder = taken;
                }
                let qbit: u64 = if reached {
                    1
                } else {
                    0
                };
                let (doubled_quotient, lost) = quotient.shl1_carry();
                let (next_quotient, spilled) = doubled_quotient.overflowing_add(Self::from(qbit));
                quotient = next_quotient;
                proof {
                    let next = 2 * old_quot + qbit;
                    let c = 2 * consumed + top;
                    assert(self@ * (2 * power) == c * m + work@) by (nonlinear_arith)
                        requires
                            self@ * power == consumed * m + old_work,
                            work@ + top * m == 2 * old_work,
                            c == 2 * consumed + top,
                    ;
                    assert(c == next * rhs@ + remainder@) by (nonlinear_arith)
                        requires
                            consumed == old_quot * rhs@ + old_rem,
                            c == 2 * consumed + top,
                            next == 2 * old_quot + qbit,
                            remainder@ == 2 * old_rem + top - qbit * rhs@,
                    ;
                    // The quotient fits: it is at most what was consumed.
                    assert(next <= next * rhs@) by (nonlinear_arith)
                        requires
                            next >= 0,
                            rhs@ >= 1,
                    ;
                    assert(next < m);
                    next_quotient.lemma_in_range();
                    assert(next_quotient@ + (lost + spilled) * m == next) by (nonlinear_arith)
                        requires
                            doubled_quotient@ + lost * m == 2 * old_quot,
                            next_quotient@ + spilled * m == doubled_quotient@ + qbit,
                            next == 2 * old_quot + qbit,
                    ;
                    assert(lost + spilled == 0) by (nonlinear_arith)
                        requires
                            next_quotient@ + (lost + spilled) * m == next,
                            0 <= next < m,
                            0 <= next_quotient@,
                            lost + spilled >= 0,
                    ;
                    consumed = c;
                    power = 2 * power;
                }
                bit = bit + 1;
            }
            proof {
                lemma_weight_positive(limb as nat);
                assert(start * base() == base() * start) by (nonlinear_arith);
            }
            limb = limb + 1;
        }
        proof {
            work.lemma_in_range();
            assert(consumed == self@) by (nonlinear_arith)
                requires
                    self@ * m == consumed * m + work@,
                    0 <= work@ < m,
            ;
            assert(rhs@ * quotient@ == quotient@ * rhs@) by (nonlinear_arith);
            lemma_fundamental_div_mod_converse(self@, rhs@, quotient@, remainder@);
        }
        (quotient, remainder)
    }

    /// The quotient of the division by `rhs`, rounded down.
    pub fn div(self, rhs: Self) -> (r: Self)
        requires
            rhs@ != 0,
        ensures
            r@ == self@ / rhs@,
    {
        self.div_rem(rhs).0
    }

    /// The remainder of the division by `rhs`.
    pub fn rem(self, rhs: Self) -> (r: Self)
        requires
            rhs@ != 0,
        ensures
            r@ == self@ % rhs@,
    {
        self.div_rem(rhs).1
    }

    /// The quotient of the division by `rhs`, or nothing where `rhs` is
    /// zero.
    pub fn checked_div(&self, rhs: &Self) -> (r: Option<Self>)
        ensures
            rhs@ == 0 ==> r.is_none(),
            rhs@ != 0 ==> r.is_some() && r.unwrap()@ == self@ / rhs@,
    {
        if rhs.is_zero() {
            None
        } else {
            Some(self.div(*rhs))
        }
    }
}

/// The number of zero bits above the highest set bit of the limbs from
/// limb `from` on; 64 for each limb where no bit is set.
pub open spec fn leading_zeros_from(limbs: Seq<u64>, from: int) -> int
    decreases limbs.len() - from,
{
    if from < 0 || from >= limbs.len() {
        0
    } else if limbs[from] != 0 {
        u64_leading_zeros(limbs[from])
    } else {
        64 + leading_zeros_from(limbs, from + 1)
    }
}

/// The number of zero bits below the lowest set bit of the first `count`
/// limbs; 64 for each limb where no bit is set.
pub open spec fn trailing_zeros_upto(limbs: Seq<u64>, count: int) -> int
    decreases count,
{
    if count <= 0 || count > limbs.len() {
        0
    } else if limbs[count - 1] != 0 {
        u64_trailing_zeros(limbs[count - 1]) as int
    } else {
        64 + trailing_zeros_upto(limbs, count - 1)
    }
}

/// The number of set bits of the first `count` limbs.
pub open spec fn ones_upto(limbs: Seq<u64>, count: int) -> int
    decreases count,
{
    if count <= 0 || count > limbs.len() {
        0
    } else {
        ones_upto(limbs, count - 1) + popcount(limbs[count - 1])
    }
}

/// A word has at most 64 set bits.
pub proof fn lemma_popcount_bound(x: u64)
    ensures
        popcount(x) <= 64,
{
    lemma2_to64();
    lemma2_to64_rest();
    lemma_popcount_below(x, 64);
}

/// A word below a power of two has at most so many set bits.
proof fn lemma_popcount_below(x: u64, bits: nat)
    requires
        bits <= 64,
        x < pow2(bits),
    ensures
        popcount(x) <= bits,
    decreases bits,
{
    if bits == 0 {
        lemma2_to64();
    } else if x != 0 {
        lemma_pow2_unfold(bits);
        lemma_popcount_below(x / 2, (bits - 1) as nat);
    }
}

impl<const T: usize> SizedInt<T> {
    /// The product, or nothing where it does not fit.
    pub fn checked_mul(&self, rhs: &Self) -> (r: Option<Self>)
        ensures
            self@ * rhs@ < Self::modulus() ==> r.is_some() && r.unwrap()@ == self@ * rhs@,
            self@ * rhs@ >= Self::modulus() ==> r.is_none(),
    {
        proof {
            self.lemma_in_range();
            rhs.lemma_in_range();
        }
        if self.is_zero() {
            proof {
                assert(0 * rhs@ == 0);
            }
            return Some(Self::zero());
        }
        let product = self.mul(*rhs);
        let back = product.div(*self);
        let exact = !back.lt(rhs) && !rhs.lt(&back);
        proof {
            let m = Self::modulus();
            let a = self@;
            let b = rhs@;
            assert(a * b >= 0) by (nonlinear_arith)
                requires
                    a >= 0,
                    b >= 0,
            ;
            if a * b < m {
                vstd::arithmetic::div_mod::lemma_small_mod((a * b) as nat, m as nat);
                assert(a * b == b * a) by (nonlinear_arith);
                vstd::arithmetic::div_mod::lemma_div_multiples_vanish(b, a);
            } else {
                product.lemma_in_range();
                // The product that wrapped is below the true one, so it
                // holds `self` fewer times than `rhs`.
                assert(product@ < a * b);
                vstd::arithmetic::div_mod::lemma_fundamental_div_mod(product@, a);
                let q = product@ / a;
                assert(q < b) by (nonlinear_arith)
                    requires
                        product@ == a * q + product@ % a,
                        0 <= product@ % a,
                        product@ < a * b,
                        a > 0,
                ;
            }
        }
        if exact {
            Some(product)
        } else {
            None
        }
    }

    /// The number of zero bits above the highest set bit.
    pub fn leading_zeros(self) -> (r: u32)
        requires
            T * 64 <= u32::MAX,
        ensures
            r == leading_zeros_from(self.0@, 0),
    {
        let mut i: usize = 0;
        while i < T
            invariant
                i <= T,
                T * 64 <= u32::MAX,
                leading_zeros_from(self.0@, 0) == 64 * i + leading_zeros_from(self.0@, i as int),
            decreases T - i,
        {
            if self.0[i] != 0 {
                proof {
                    vstd::std_specs::bits::axiom_u64_leading_zeros(self.0[i as int]);
                }
                return (i as u32) * 64 + self.0[i].leading_zeros();
            }
            i = i + 1;
        }
        (T as u32) * 64
    }

    /// The number of zero bits below the lowest set bit.
    pub fn trailing_zeros(self) -> (r: u32)
        requires
            T * 64 <= u32::MAX,
        ensures
            r == trailing_zeros_upto(self.0@, T as int),
    {
        let mut done: usize = 0;
        while done < T
            invariant
                done <= T,
                T * 64 <= u32::MAX,
                trailing_zeros_upto(self.0@, T as int) == 64 * done + trailing_zeros_upto(
                    self.0@,
                    T - done,
                ),
            decreases T - done,
        {
            let i = T - 1 - done;
            if self.0[i] != 0 {
                proof {
                    vstd::std_specs::bits::axiom_u64_trailing_zeros(self.0[i as int]);
                }
                return (done as u32) * 64 + self.0[i].trailing_zeros();
            }
            done = done + 1;
        }
        (T as u32) * 64
    }

    /// The number of set bits.
    pub fn count_ones(self) -> (r: u32)
        requires
            T * 64 <= u32::MAX,
        ensures
            r == ones_upto(self.0@, T as int),
    {
        let mut total: u32 = 0;
        let mut i: usize = 0;
        while i < T
            invariant
                i <= T,
                T * 64 <= u32::MAX,
                total == ones_upto(self.0@, i as int),
                total <= 64 * i,
            decreases T - i,
        {
            proof {
                lemma_popcount_bound(self.0[i as int]);
            }
            total = total + self.0[i].count_ones();
            i = i + 1;
        }
        total
    }

    /// The number of bits that are not set.
    pub fn count_zeros(self) -> (r: u32)
        requires
            T * 64 <= u32::MAX,
        ensures
            r == 64 * T - ones_upto(self.0@, T as int),
    {
        let mut total: u32 = 0;
        let mut i: usize = 0;
        while i < T
            invariant
                i <= T,
                T * 64 <= u32::MAX,
                total == 64 * i - ones_upto(self.0@, i as int),
                0 <= ones_upto(self.0@, i as int) <= 64 * i,
            decreases T - i,
        {
            proof {
                lemma_popcount_bound(self.0[i as int]);
            }
            total = total + (64 - self.0[i].count_ones());
            i = i + 1;
        }
        total
    }
}

/// One step of raising to a power by squaring: a number times a base to
/// an exponent is, wrapped around, the number with the base once more if
/// the exponent is odd, times the squared base to half the exponent.
pub proof fn lemma_power_step(result: int, b: int, e: nat, next: int, squared: int, m: int)
    requires
        m > 0,
        e > 0,
        next == (if e % 2 == 1 {
            (result * b) % m
        } else {
            result
        }),
        squared == (b * b) % m,
    ensures
        (next * vstd::arithmetic::power::pow(squared, e / 2)) % m == (result
            * vstd::arithmetic::power::pow(b, e)) % m,
{
    let half = e / 2;
    vstd::arithmetic::power::lemma_square_is_pow2(b);
    vstd::arithmetic::power::lemma_pow_multiplies(b, 2, half);
    vstd::arithmetic::power::lemma_pow_mod_noop(b * b, half, m);
    vstd::arithmetic::power::lemma_pow1(b);
    // The squared base to half the exponent, as the base to the even part.
    let even = vstd::arithmetic::power::pow(b, 2 * half);
    let high = vstd::arithmetic::power::pow(squared, half);
    assert(high % m == even % m);
    let first = if e % 2 == 1 {
        result * b
    } else {
        result
    };
    assert(result * vstd::arithmetic::power::pow(b, e) == first * even) by {
        if e % 2 == 1 {
            vstd::arithmetic::power::lemma_pow_adds(b, 1, 2 * half);
            assert(e == 1 + 2 * half);
            assert(result * (b * even) == (result * b) * even) by (nonlinear_arith);
        } else {
            assert(e == 2 * half);
        }
    }
    assert(next % m == first % m) by {
        if e % 2 == 1 {
            vstd::arithmetic::div_mod::lemma_mod_twice(result * b, m);
        }
    }
    vstd::arithmetic::div_mod::lemma_mul_mod_noop_general(next, high, m);
    vstd::arithmetic::div_mod::lemma_mul_mod_noop_general(first, even, m);
}

impl<const T: usize> SizedInt<T> {
    /// The number to the power of `exp`, wrapped around at the width of the
    /// type.
    pub fn pow(self, exp: u32) -> (r: Self)
        requires
            T >= 1,
        ensures
            r@ == vstd::arithmetic::power::pow(self@, exp as nat) % Self::modulus(),
    {
        let mut base = self;
        let mut result = Self::one();
        let mut left = exp;
        proof {
            lemma_weight_positive(T as nat);
            assert(1 * vstd::arithmetic::power::pow(self@, exp as nat)
                == vstd::arithmetic::power::pow(self@, exp as nat));
        }
        while left > 0
            invariant
                T >= 1,
                Self::modulus() > 0,
                (result@ * vstd::arithmetic::power::pow(base@, left as nat)) % Self::modulus()
                    == vstd::arithmetic::power::pow(self@, exp as nat) % Self::modulus(),
            decreases left,
        {
            let ghost before = result@;
            let ghost b = base@;
            if left % 2 == 1 {
                result = result.mul(base);
            }
            base = base.mul(base);
            proof {
                lemma_power_step(before, b, left as nat, result@, base@, Self::modulus());
            }
            left = left / 2;
        }
        proof {
            vstd::arithmetic::power::lemma_pow0(base@);
            result.lemma_in_range();
            assert(result@ * 1 == result@);
            vstd::arithmetic::div_mod::lemma_small_mod(result@ as nat, Self::modulus() as nat);
        }
        result
    }
}

} // verus!
