use chessing::bitboard::big::NoNumber;
use chessing::bitboard::sizedint::SizedInt;
use num::BigUint;

fn from_u64<const T: usize>(x: u64) -> SizedInt<T> {
    let mut data = [0u64; T];
    if T > 0 {
        data[T - 1] = x;
    }
    SizedInt(data)
}

#[test]
fn test_equality() {
    let a = SizedInt([1u64, 2]);
    let b = SizedInt([1u64, 2]);
    let c = SizedInt([0u64, 2]);

    assert_eq!(a, b);
    assert_ne!(a, c);
}

#[test]
fn test_clone_copy() {
    let a = SizedInt([5u64, 10]);
    let b = a;
    let c = a.clone();

    assert_eq!(a, b);
    assert_eq!(a, c);
}

#[test]
fn test_from_u64() {
    let x = from_u64::<2>(42);
    assert_eq!(x, SizedInt([0, 42]));
    assert_eq!(SizedInt::<2>::from(42), SizedInt([0, 42]));

    let y = from_u64::<1>(999);
    assert_eq!(y, SizedInt([999]));
    assert_eq!(SizedInt::<1>::from(999), SizedInt([999]));
}

#[test]
fn test_debug_format() {
    let x = SizedInt([1u64, 2]);
    let s = format!("{:?}", x);
    assert!(s.contains("1") && s.contains("2"));
}

#[test]
fn test_addition_simple() {
    let a = from_u64::<2>(1);
    let b = from_u64::<2>(2);
    let c = from_u64::<2>(3);

    assert_eq!(a.add(b), c);
}

#[test]
fn test_addition_carry() {
    let a = SizedInt([1, u64::MAX]);
    let b = from_u64::<2>(1);
    let expected = SizedInt([2, 0]);

    assert_eq!(a.add(b), expected);
}

#[test]
fn test_zero() {
    let zero = SizedInt::<3>([0; 3]);
    assert!(zero.is_zero());
    assert_eq!(SizedInt::<3>::zero(), zero);
}

#[test]
fn test_bitshift_left() {
    let x = from_u64::<2>(1);
    let shifted = x.shl(64);
    assert_eq!(shifted, SizedInt([1, 0]));
}

#[test]
fn test_bitshift_right() {
    let x = SizedInt([1, 0]);
    let shifted = x.shr(64);
    assert_eq!(shifted, from_u64::<2>(1));
}

#[test]
fn shifts_move_bits_across_limbs() {
    let x = SizedInt([0x0123_4567_89ab_cdefu64, 0xfedc_ba98_7654_3210u64]);
    assert_eq!(x.shl(0), x);
    assert_eq!(x.shr(0), x);
    assert_eq!(x.shl(4), SizedInt([0x1234_5678_9abc_deffu64, 0xedcb_a987_6543_2100u64]));
    assert_eq!(x.shr(4), SizedInt([0x0012_3456_789a_bcdeu64, 0xffed_cba9_8765_4321u64]));
    assert_eq!(x.shl(68), SizedInt([0xedcb_a987_6543_2100u64, 0]));
    assert_eq!(x.shr(68), SizedInt([0, 0x0012_3456_789a_bcdeu64]));
    assert_eq!(x.shl(128), SizedInt([0, 0]));
    assert_eq!(x.shr(128), SizedInt([0, 0]));
    assert_eq!(x.shl(4000), SizedInt([0, 0]));
    assert_eq!(x.shl1(), x.shl(1));
    assert_eq!(x.shr1(), x.shr(1));
    assert_eq!(SizedInt([u64::MAX, u64::MAX]).shl1_carry(), (SizedInt([u64::MAX, u64::MAX - 1]), 1));
}

#[test]
fn addition_and_subtraction_wrap_check_and_saturate() {
    let max = SizedInt::<2>::max_value();
    let one = SizedInt::<2>::one();
    let zero = SizedInt::<2>::zero();
    assert_eq!(max, SizedInt([u64::MAX, u64::MAX]));
    assert_eq!(SizedInt::<2>::min_value(), zero);
    assert_eq!(max.add(one), zero);
    assert_eq!(max.checked_add(&one), None);
    assert_eq!(max.saturating_add(one), max);
    assert_eq!(one.checked_add(&one), Some(from_u64::<2>(2)));
    assert_eq!(zero.sub(one), max);
    assert_eq!(zero.checked_sub(&one), None);
    assert_eq!(zero.saturating_sub(one), zero);
    assert_eq!(SizedInt([1u64, 0]).sub(from_u64::<2>(1)), SizedInt([0, u64::MAX]));
    assert_eq!(
        SizedInt([1u64, 0]).checked_sub(&from_u64::<2>(1)),
        Some(SizedInt([0, u64::MAX]))
    );
    assert_eq!(SizedInt([5u64, 7]).overflowing_sub(SizedInt([5u64, 8])), (max, 1));
}

#[test]
fn comparison_goes_by_the_most_significant_limb() {
    let small = SizedInt([0u64, u64::MAX]);
    let large = SizedInt([1u64, 0]);
    assert!(small.lt(&large));
    assert!(small.le(&large));
    assert!(large.gt(&small));
    assert!(large.ge(&small));
    assert!(!large.lt(&large));
    assert!(large.le(&large));
    assert!(large.ge(&large));
}

#[test]
fn multiplication_matches_native_128_bit_arithmetic() {
    let cases: [(u128, u128); 6] = [
        (0, 12345),
        (1, u128::MAX),
        (0xffff_ffff_ffff_ffff, 0xffff_ffff_ffff_ffff),
        (0x1234_5678_9abc_def0_1122_3344_5566_7788, 0x0fed_cba9_8765_4321),
        (u128::MAX, u128::MAX),
        (0x8000_0000_0000_0000_0000_0000_0000_0000, 2),
    ];
    for (a, b) in cases {
        let x = SizedInt([(a >> 64) as u64, a as u64]);
        let y = SizedInt([(b >> 64) as u64, b as u64]);
        let expected = a.wrapping_mul(b);
        assert_eq!(x.mul(y), SizedInt([(expected >> 64) as u64, expected as u64]));
        match a.checked_mul(b) {
            Some(p) => assert_eq!(x.checked_mul(&y), Some(SizedInt([(p >> 64) as u64, p as u64]))),
            None => assert_eq!(x.checked_mul(&y), None),
        }
    }
}

#[test]
fn division_matches_native_128_bit_arithmetic() {
    let cases: [(u128, u128); 7] = [
        (0, 7),
        (7, 7),
        (6, 7),
        (u128::MAX, 1),
        (u128::MAX, u128::MAX),
        (u128::MAX, 0xffff_ffff_ffff_ffff),
        (0x1234_5678_9abc_def0_1122_3344_5566_7788, 0x0fed_cba9_8765_4321),
    ];
    for (a, b) in cases {
        let x = SizedInt([(a >> 64) as u64, a as u64]);
        let y = SizedInt([(b >> 64) as u64, b as u64]);
        let q = a / b;
        let r = a % b;
        assert_eq!(x.div(y), SizedInt([(q >> 64) as u64, q as u64]));
        assert_eq!(x.rem(y), SizedInt([(r >> 64) as u64, r as u64]));
        assert_eq!(x.div_rem(y), (x.div(y), x.rem(y)));
        assert_eq!(x.checked_div(&y), Some(x.div(y)));
    }
    assert_eq!(from_u64::<2>(5).checked_div(&SizedInt::<2>::zero()), None);
}

#[test]
fn bit_operations_work_limb_by_limb() {
    let a = SizedInt([0b1100u64, 0b1010]);
    let b = SizedInt([0b1010u64, 0b0110]);
    assert_eq!(a.bitand(b), SizedInt([0b1000, 0b0010]));
    assert_eq!(a.bitor(b), SizedInt([0b1110, 0b1110]));
    assert_eq!(a.bitxor(b), SizedInt([0b0110, 0b1100]));
    assert_eq!(a.not(), SizedInt([!0b1100u64, !0b1010u64]));
}

#[test]
fn bits_are_counted_over_all_limbs() {
    let x = SizedInt([0u64, 0b1000]);
    assert_eq!(x.leading_zeros(), 64 + 60);
    assert_eq!(x.trailing_zeros(), 3);
    assert_eq!(x.count_ones(), 1);
    assert_eq!(x.count_zeros(), 127);
    let y = SizedInt([1u64 << 63, 0]);
    assert_eq!(y.leading_zeros(), 0);
    assert_eq!(y.trailing_zeros(), 64 + 63);
    let zero = SizedInt::<2>::zero();
    assert_eq!(zero.leading_zeros(), 128);
    assert_eq!(zero.trailing_zeros(), 128);
    assert_eq!(zero.count_ones(), 0);
}

#[test]
fn one_and_small_values() {
    assert!(SizedInt::<3>::one().is_one());
    assert!(!SizedInt::<3>::zero().is_one());
    assert!(!SizedInt([1u64, 1]).is_one());
    assert!(!SizedInt::<3>::one().is_zero());
    assert_eq!(SizedInt::<3>::one(), SizedInt([0, 0, 1]));
    assert_eq!(SizedInt([0u64, 0, 77]).to_u64(), Some(77));
    assert_eq!(SizedInt([0u64, 1, 77]).to_u64(), None);
}

#[test]
fn big_integers_hold_the_same_number() {
    let x = SizedInt([1u64, 2]);
    assert_eq!(x.to_biguint(), (BigUint::from(1u64) << 64) + BigUint::from(2u64));
    assert_eq!(SizedInt::<2>::zero().to_biguint(), BigUint::from(0u64));
    assert_eq!(SizedInt::<2>::max_value().to_biguint(), (BigUint::from(1u64) << 128) - BigUint::from(1u64));
    assert_eq!(SizedInt::<2>::from_biguint(x.to_biguint()), x);
    assert_eq!(SizedInt::<2>::from_biguint(BigUint::from(0u64)), SizedInt([0, 0]));
    assert_eq!(
        SizedInt::<2>::from_biguint(BigUint::from(0x0102_0304_0506_0708_090a_0b0c_0d0e_0f10u128)),
        SizedInt([0x0102_0304_0506_0708, 0x090a_0b0c_0d0e_0f10])
    );
    // What lies above the width is lost.
    assert_eq!(
        SizedInt::<1>::from_biguint((BigUint::from(7u64) << 64) + BigUint::from(5u64)),
        SizedInt([5])
    );
    let wide = SizedInt([u64::MAX, 0, 1u64 << 63]);
    assert_eq!(SizedInt::<3>::from_biguint(wide.to_biguint()), wide);
}

#[test]
fn powers_wrap_around() {
    let three = from_u64::<2>(3);
    assert_eq!(three.pow(0), from_u64::<2>(1));
    assert_eq!(three.pow(1), three);
    assert_eq!(three.pow(5), from_u64::<2>(243));
    let expected = 3u128.wrapping_pow(100);
    assert_eq!(three.pow(100), SizedInt([(expected >> 64) as u64, expected as u64]));
    let two = from_u64::<2>(2);
    assert_eq!(two.pow(127), SizedInt([1 << 63, 0]));
    assert_eq!(two.pow(128), SizedInt([0, 0]));
    assert_eq!(SizedInt::<2>::zero().pow(0), from_u64::<2>(1));
    assert_eq!(SizedInt::<2>::zero().pow(3), SizedInt([0, 0]));
}

#[test]
fn bits_turn_round_the_whole_width() {
    let x = SizedInt([0x8000_0000_0000_0001u64, 0x0000_0000_0000_00f0]);
    assert_eq!(x.rotate_left(0), x);
    assert_eq!(x.rotate_left(128), x);
    assert_eq!(x.rotate_left(4), SizedInt([0x0000_0000_0000_0010u64, 0x0000_0000_0000_0f08]));
    assert_eq!(x.rotate_left(64), SizedInt([0x0000_0000_0000_00f0u64, 0x8000_0000_0000_0001]));
    assert_eq!(x.rotate_right(4), SizedInt([0x0800_0000_0000_0000u64, 0x1000_0000_0000_000f]));
    assert_eq!(x.rotate_right(64), x.rotate_left(64));
    for n in [0u32, 1, 17, 63, 64, 65, 127, 128, 129, 1000] {
        assert_eq!(x.rotate_left(n).rotate_right(n), x);
        assert_eq!(x.rotate_left(n), x.rotate_right(128 - n % 128));
        assert_eq!(x.rotate_left(n).count_ones(), x.count_ones());
    }
    for n in [0u32, 1, 13, 63, 64, 200] {
        let word = 0x0123_4567_89ab_cdefu64;
        assert_eq!(SizedInt([word]).rotate_left(n), SizedInt([word.rotate_left(n)]));
        assert_eq!(SizedInt([word]).rotate_right(n), SizedInt([word.rotate_right(n)]));
    }
}

#[test]
fn bytes_are_reversed_over_all_limbs() {
    let x = SizedInt([0x0102_0304_0506_0708u64, 0x090a_0b0c_0d0e_0f10]);
    assert_eq!(x.swap_bytes(), SizedInt([0x100f_0e0d_0c0b_0a09u64, 0x0807_0605_0403_0201]));
    assert_eq!(x.swap_bytes().swap_bytes(), x);
    let word = 0x0123_4567_89ab_cdefu64;
    assert_eq!(SizedInt([word]).swap_bytes(), SizedInt([word.swap_bytes()]));
    assert_eq!(SizedInt::<0>([]).swap_bytes(), SizedInt([]));
    let wide = ((0x0102_0304_0506_0708u128) << 64) | 0x090a_0b0c_0d0e_0f10u128;
    let swapped = wide.swap_bytes();
    assert_eq!(x.swap_bytes(), SizedInt([(swapped >> 64) as u64, swapped as u64]));
}

#[test]
fn numbers_are_read_from_texts() {
    assert_eq!(SizedInt::<2>::from_str_radix("ff", 16), Ok(SizedInt([0u64, 255])));
    assert_eq!(SizedInt::<2>::from_str_radix("18446744073709551616", 10), Ok(SizedInt([1u64, 0])));
    assert_eq!(SizedInt::<2>::from_str_radix("1_000", 10), Ok(SizedInt([0u64, 1000])));
    assert_eq!(SizedInt::<2>::from_str_radix("+101", 2), Ok(SizedInt([0u64, 5])));
    assert_eq!(SizedInt::<2>::from_str_radix("zz", 36), Ok(SizedInt([0u64, 35 * 36 + 35])));
    assert_eq!(
        SizedInt::<2>::from_str_radix("340282366920938463463374607431768211455", 10),
        Ok(SizedInt([u64::MAX, u64::MAX]))
    );
    // What does not fit is cut off at the top.
    assert_eq!(SizedInt::<1>::from_str_radix("18446744073709551617", 10), Ok(SizedInt([1u64])));
    assert_eq!(
        SizedInt::<2>::from_str_radix("340282366920938463463374607431768211458", 10),
        Ok(SizedInt([0u64, 2]))
    );
    assert_eq!(SizedInt::<2>::from_str_radix("", 10), Err(NoNumber));
    assert_eq!(SizedInt::<2>::from_str_radix("12x", 10), Err(NoNumber));
    assert_eq!(SizedInt::<2>::from_str_radix("2", 2), Err(NoNumber));
    assert_eq!(SizedInt::<2>::from_str_radix("-1", 10), Err(NoNumber));
    assert_eq!(SizedInt::<2>::from_str_radix("_1", 10), Err(NoNumber));
    assert_eq!(SizedInt::<0>::from_str_radix("7", 10), Ok(SizedInt([])));
}
