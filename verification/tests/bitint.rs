use chessing::bitboard::bitint::BitInt;
use chessing::bitboard::sizedint::SizedInt;

fn low_three<B: BitInt>() -> B {
    B::only(0).either(B::only(1)).either(B::only(2))
}

fn walk_up_and_down<B: BitInt>(width: u32) -> bool {
    let mut ok = true;
    for index in 0..width {
        let bit = B::only(index);
        ok = ok && !bit.blank();
        ok = ok && B::only(0).up(index).differing(bit).blank();
        ok = ok && bit.down(index).differing(B::only(0)).blank();
        ok = ok && bit.up(width - index).blank();
        ok = ok && bit.down(index + 1).blank();
    }
    ok
}

#[test]
fn words_are_rows_of_bits() {
    assert_eq!(<u64 as BitInt>::none(), 0);
    assert_eq!(<u64 as BitInt>::only(0), 1);
    assert_eq!(<u64 as BitInt>::only(63), 1u64 << 63);
    assert_eq!(low_three::<u64>(), 0b111);
    assert_eq!(0b1100u64.both(0b1010), 0b1000);
    assert_eq!(0b1100u64.either(0b1010), 0b1110);
    assert_eq!(0b1100u64.differing(0b1010), 0b0110);
    assert_eq!(0u64.flipped(), u64::MAX);
    assert_eq!(BitInt::up(0b101u64, 3), 0b101000);
    assert_eq!(BitInt::down(0b101000u64, 3), 0b101);
    assert_eq!(BitInt::up(u64::MAX, 64), 0);
    assert_eq!(BitInt::down(u64::MAX, 64), 0);
    assert_eq!(BitInt::up(u64::MAX, 200), 0);
    assert!(0u64.blank());
    assert!(!1u64.blank());
}

#[test]
fn limbs_are_rows_of_bits() {
    assert_eq!(<SizedInt<2> as BitInt>::none(), SizedInt([0u64, 0]));
    assert_eq!(<SizedInt<2> as BitInt>::only(0), SizedInt([0u64, 1]));
    assert_eq!(<SizedInt<2> as BitInt>::only(63), SizedInt([0u64, 1u64 << 63]));
    assert_eq!(<SizedInt<2> as BitInt>::only(64), SizedInt([1u64, 0]));
    assert_eq!(<SizedInt<2> as BitInt>::only(127), SizedInt([1u64 << 63, 0]));
    assert_eq!(low_three::<SizedInt<3>>(), SizedInt([0u64, 0, 0b111]));

    let a = SizedInt([0b1100u64, 0b0011]);
    let b = SizedInt([0b1010u64, 0b0101]);
    assert_eq!(a.both(b), SizedInt([0b1000u64, 0b0001]));
    assert_eq!(a.either(b), SizedInt([0b1110u64, 0b0111]));
    assert_eq!(a.differing(b), SizedInt([0b0110u64, 0b0110]));
    assert_eq!(SizedInt([0u64, u64::MAX]).flipped(), SizedInt([u64::MAX, 0]));

    assert_eq!(BitInt::up(SizedInt([0u64, 0b101]), 63), SizedInt([0b10u64, 1u64 << 63]));
    assert_eq!(BitInt::down(SizedInt([0b10u64, 1u64 << 63]), 63), SizedInt([0u64, 0b101]));
    assert_eq!(BitInt::up(SizedInt([u64::MAX, u64::MAX]), 128), SizedInt([0u64, 0]));
    assert_eq!(BitInt::down(SizedInt([u64::MAX, u64::MAX]), 128), SizedInt([0u64, 0]));
    assert!(SizedInt([0u64, 0]).blank());
    assert!(!SizedInt([1u64, 0]).blank());
}

#[test]
fn single_bits_travel_the_whole_width() {
    assert!(walk_up_and_down::<u64>(64));
    assert!(walk_up_and_down::<SizedInt<1>>(64));
    assert!(walk_up_and_down::<SizedInt<2>>(128));
    assert!(walk_up_and_down::<SizedInt<3>>(192));
}

#[test]
fn one_limb_agrees_with_a_word() {
    let samples = [0u64, 1, 0b1011, 0x8000_0000_0000_0001, 0x0123_4567_89ab_cdef, u64::MAX];
    for &x in samples.iter() {
        for &y in samples.iter() {
            assert_eq!(SizedInt([x]).both(SizedInt([y])), SizedInt([x.both(y)]));
            assert_eq!(SizedInt([x]).either(SizedInt([y])), SizedInt([x.either(y)]));
            assert_eq!(SizedInt([x]).differing(SizedInt([y])), SizedInt([x.differing(y)]));
        }
        for shift in [0u32, 1, 7, 32, 63, 64, 65] {
            assert_eq!(BitInt::up(SizedInt([x]), shift), SizedInt([BitInt::up(x, shift)]));
            assert_eq!(BitInt::down(SizedInt([x]), shift), SizedInt([BitInt::down(x, shift)]));
        }
        assert_eq!(SizedInt([x]).flipped(), SizedInt([x.flipped()]));
        assert_eq!(SizedInt([x]).blank(), x.blank());
    }
}
