use bigr::Uint;
use bigr::Uint256;

#[test]
fn uint256() {
    let one: Uint256 = Uint256::from_digit(1);
    let two: Uint256 = Uint256::from_digit(2);
    let three: Uint256 = Uint256::from_digit(3);
    let four: Uint256 = Uint256::from_digit(4);

    assert_eq!(one.wrapping_add(&two), three);

    assert!(one.is_odd());
    assert!(two.is_even());
    assert!(three.is_odd());

    assert_eq!(two.wrapping_sub(&one), one);
    assert_eq!(three.wrapping_sub(&one), two);

    assert_eq!(two.wrapping_mul(&two), four);

    assert!(two.is_eq(&two));
}

#[test]
fn from_digit_matches_constants() {
    assert!(Uint::<1>::from_digit(0).is_eq(&Uint::<1>::zero()));
    assert!(Uint::<1>::from_digit(1).is_eq(&Uint::<1>::one()));
    assert!(Uint::<4>::from_digit(0).is_eq(&Uint::<4>::zero()));
    assert!(Uint::<4>::from_digit(1).is_eq(&Uint::<4>::one()));
    assert!(Uint::<8>::from_digit(0).is_eq(&Uint::<8>::zero()));
    assert!(Uint::<8>::from_digit(1).is_eq(&Uint::<8>::one()));
}

#[test]
fn zero_and_one_queries() {
    assert!(Uint256::zero().is_zero());
    assert!(!Uint256::one().is_zero());
    assert!(Uint256::from_digit(0).is_zero());
    assert!(!Uint256::from_digit(7).is_zero());
    let d: Uint256 = Default::default();
    assert!(d.is_zero());
}

#[test]
fn parity() {
    assert!(Uint256::zero().is_even());
    assert!(Uint256::one().is_odd());
    assert!(Uint256::from_digit(0xfffe).is_even());
    assert!(Uint256::from_digit(0xffff).is_odd());
    assert!(Uint256::from_digit(u64::MAX).is_odd());
    assert!(Uint256::from_digit(u64::MAX - 1).is_even());
    // Parity is bit 0 of digit 0 alone, even after a carry into digit 1.
    let big = Uint256::from_digit(u64::MAX).wrapping_add(&Uint256::from_digit(3));
    assert!(big.is_even());
}

#[test]
fn equality_is_an_equivalence() {
    let a = Uint256::from_digit(12);
    let b = Uint256::from_digit(12);
    let c = Uint256::from_digit(12);
    let other = Uint256::from_digit(26);
    assert!(a.is_eq(&a));
    assert!(a.is_eq(&b) && b.is_eq(&a));
    assert!(a.is_eq(&b) && b.is_eq(&c) && a.is_eq(&c));
    assert!(!a.is_eq(&other));
    assert!(!other.is_eq(&a));
    assert_eq!(a, b);
    assert_ne!(a, other);
}

#[test]
fn add_then_sub_restores() {
    let a = Uint256::from_digit(5);
    let b = Uint256::from_digit(7);
    assert!(a.wrapping_add(&b).wrapping_sub(&b).is_eq(&a));
    let big = Uint256::from_digit(u64::MAX);
    assert!(big.wrapping_add(&big).wrapping_sub(&big).is_eq(&big));
    let zero = Uint256::zero();
    assert!(zero.wrapping_add(&b).wrapping_sub(&b).is_eq(&zero));
}

#[test]
fn add_wraps_at_maximum() {
    let zero = Uint256::zero();
    let one = Uint256::one();
    // The maximum representable value is zero minus one under wraparound.
    let max = zero.wrapping_sub(&one);
    assert!(!max.is_zero());
    assert!(max.is_odd());
    // Adding one to the maximum discards the final carry and yields zero.
    assert!(max.wrapping_add(&one).is_zero());
    let mut m = max;
    m.add_assign(&one);
    assert!(m.is_zero());
}

#[test]
fn sub_wraps_below_zero() {
    let zero = Uint256::zero();
    let one = Uint256::one();
    let wrapped = zero.wrapping_sub(&one);
    // Wrapping back up restores zero.
    assert!(wrapped.wrapping_add(&one).is_zero());
    assert_eq!(
        wrapped.to_hex(),
        "0xffffffffffffffffffffffffffffffffffffffffffffffffffffffffffffffff"
    );
}

#[test]
fn mul_single_digit_values() {
    let two = Uint256::from_digit(2);
    let three = Uint256::from_digit(3);
    let five = Uint256::from_digit(5);
    assert!(two.wrapping_mul(&three).is_eq(&Uint256::from_digit(6)));
    assert!(three.wrapping_mul(&five).is_eq(&Uint256::from_digit(15)));
    assert!(two.wrapping_mul(&Uint256::zero()).is_zero());
    // A product that overflows digit 0 carries into digit 1.
    let shift32 = Uint256::from_digit(1 << 32);
    assert_eq!(shift32.wrapping_mul(&shift32).to_hex(), "0x00000100");
}

#[test]
fn mac_widens_one_digit_products() {
    assert_eq!(bigr::mac(0, 2, 3, 0), (6, 0));
    assert_eq!(bigr::mac(1, 2, 3, 4), (11, 0));
    assert_eq!(bigr::mac(0, u64::MAX, u64::MAX, 0), (1, u64::MAX - 1));
    assert_eq!(
        bigr::mac(u64::MAX, u64::MAX, u64::MAX, u64::MAX),
        (u64::MAX, u64::MAX)
    );
}

#[test]
fn adc_carries() {
    assert_eq!(bigr::adc(2, 3, 0), (5, 0));
    assert_eq!(bigr::adc(2, 3, 1), (6, 0));
    assert_eq!(bigr::adc(u64::MAX, 1, 0), (0, 1));
    assert_eq!(bigr::adc(u64::MAX, u64::MAX, 1), (u64::MAX, 1));
}

#[test]
fn sbb_borrows() {
    assert_eq!(bigr::sbb(5, 3, 0), (2, 0));
    assert_eq!(bigr::sbb(5, 3, 1), (1, 0));
    assert_eq!(bigr::sbb(0, 1, 0), (u64::MAX, 1));
    assert_eq!(bigr::sbb(3, 3, 1), (u64::MAX, 1));
    assert_eq!(bigr::sbb(0, u64::MAX, 1), (0, 1));
}

#[test]
fn hex_rendering() {
    assert_eq!(Uint::<1>::zero().to_hex(), "0x00");
    assert_eq!(Uint::<2>::zero().to_hex(), "0x0000");
    assert_eq!(Uint::<1>::from_digit(0xdeadbeef).to_hex(), "0xdeadbeef");
    assert_eq!(Uint256::from_digit(255).to_hex(), "0x000000ff");
    // A digit at or above 0x100 widens its own field.
    assert_eq!(Uint256::from_digit(256).to_hex(), "0x000000100");
    assert_eq!(Uint::<1>::from_digit(7).to_hex(), "0x07");
}
