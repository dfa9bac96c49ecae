use polyinterp::{Integer, Natural, Rational};

fn q(num: i64, den: i64) -> Rational {
    Rational::from_ratio(num, den).unwrap()
}

#[test]
fn natural_zero_is_zero() {
    assert!(Natural::zero().is_zero());
    assert!(Natural::from_u64(0).is_zero());
    assert!(!Natural::from_u64(1).is_zero());
    assert!(!Natural::from_u64(1 << 40).is_zero());
}

#[test]
fn natural_addition_carries_across_limbs() {
    let a = Natural::from_u64(0xffff_ffff);
    let b = Natural::from_u64(1);
    assert!(a.add(&b).eq(&Natural::from_u64(0x1_0000_0000)));
    let max = Natural::from_u64(u64::MAX);
    let sum = max.add(&b);
    assert!(!sum.eq(&Natural::zero()));
    assert!(max.lt(&sum));
    assert!(sum.checked_sub(&b).unwrap().eq(&max));
}

#[test]
fn natural_subtraction_borrows_across_limbs() {
    let a = Natural::from_u64(0x1_0000_0000);
    let b = Natural::from_u64(1);
    assert!(a.checked_sub(&b).unwrap().eq(&Natural::from_u64(0xffff_ffff)));
    assert!(a.checked_sub(&a).unwrap().is_zero());
    assert!(b.checked_sub(&a).is_none());
}

#[test]
fn natural_order_is_by_value() {
    let small = Natural::from_u64(7);
    let large = Natural::from_u64(0x7_0000_0000);
    assert!(small.lt(&large));
    assert!(!large.lt(&small));
    assert!(!small.lt(&small));
    assert!(small.eq(&Natural::from_u64(7)));
    assert!(!small.eq(&large));
}

#[test]
fn natural_multiplication_matches_machine_arithmetic() {
    let a = Natural::from_u64(123_456_789);
    let b = Natural::from_u64(987_654_321);
    assert!(a.mul(&b).eq(&Natural::from_u64(121_932_631_112_635_269)));
    assert!(a.mul(&Natural::zero()).is_zero());
    assert!(a.mul(&Natural::from_u64(1)).eq(&a));
}

#[test]
fn natural_multiplication_beyond_machine_width() {
    // (m + 1)^2 = m^2 + 2m + 1 for m = 2^64 - 1
    let m = Natural::from_u64(u64::MAX);
    let one = Natural::from_u64(1);
    let two = Natural::from_u64(2);
    let left = m.add(&one).mul(&m.add(&one));
    let right = m.mul(&m).add(&two.mul(&m)).add(&one);
    assert!(left.eq(&right));
    // (m + 1)^2 = 2^128 is 2^32 multiplied into itself four times
    let r = Natural::from_u64(1 << 32);
    assert!(left.eq(&r.mul(&r).mul(&r).mul(&r)));
    assert!(m.mul(&m).lt(&left));
}

#[test]
fn natural_clone_is_equal() {
    let a = Natural::from_u64(u64::MAX).mul(&Natural::from_u64(u64::MAX));
    assert!(a.clone().eq(&a));
}

#[test]
fn integer_from_machine_integers() {
    assert!(Integer::from_i64(0).is_zero());
    assert!(Integer::zero().is_zero());
    assert!(Integer::from_i64(-5).is_negative());
    assert!(!Integer::from_i64(5).is_negative());
    assert!(!Integer::from_i64(0).is_negative());
    assert!(Integer::from_i64(i64::MIN).is_negative());
    let extremes = Integer::from_i64(i64::MIN).add(&Integer::from_i64(i64::MAX));
    assert!(extremes.eq(&Integer::from_i64(-1)));
    assert!(Integer::from_i64(i64::MIN).magnitude().eq(&Natural::from_u64(1 << 63)));
    assert!(Integer::from_natural(Natural::from_u64(9)).eq(&Integer::from_i64(9)));
}

#[test]
fn integer_addition_with_mixed_signs() {
    let a = Integer::from_i64(7);
    let b = Integer::from_i64(-10);
    assert!(a.add(&b).eq(&Integer::from_i64(-3)));
    assert!(b.add(&a).eq(&Integer::from_i64(-3)));
    assert!(a.add(&a.neg()).is_zero());
    assert!(a.sub(&b).eq(&Integer::from_i64(17)));
    assert!(b.sub(&a).eq(&Integer::from_i64(-17)));
    assert!(b.add(&b).eq(&Integer::from_i64(-20)));
}

#[test]
fn integer_multiplication_signs() {
    let a = Integer::from_i64(-6);
    let b = Integer::from_i64(7);
    assert!(a.mul(&b).eq(&Integer::from_i64(-42)));
    assert!(a.mul(&a).eq(&Integer::from_i64(36)));
    assert!(b.mul(&b).eq(&Integer::from_i64(49)));
    assert!(a.mul(&Integer::zero()).is_zero());
    assert!(!a.mul(&Integer::zero()).is_negative());
}

#[test]
fn integer_order() {
    assert!(Integer::from_i64(-3).lt(&Integer::from_i64(2)));
    assert!(Integer::from_i64(-3).lt(&Integer::from_i64(-2)));
    assert!(!Integer::from_i64(2).lt(&Integer::from_i64(2)));
    assert!(!Integer::from_i64(3).lt(&Integer::from_i64(-4)));
    assert!(Integer::from_i64(-4).neg().eq(&Integer::from_i64(4)));
    assert!(Integer::from_i64(-4).magnitude().eq(&Natural::from_u64(4)));
    assert!(Integer::from_i64(-4).clone().eq(&Integer::from_i64(-4)));
}

#[test]
fn rational_zero_denominator_is_refused() {
    assert!(Rational::from_ratio(1, 0).is_none());
    assert!(Rational::from_ratio(0, 0).is_none());
    assert!(Rational::from_integers(Integer::from_i64(3), Integer::zero()).is_none());
    assert!(Rational::from_ratio(0, 5).unwrap().is_zero());
}

#[test]
fn rational_equality_ignores_representation() {
    assert_eq!(q(2, 4), q(1, 2));
    assert_eq!(q(-2, 4), q(1, -2));
    assert_eq!(q(-3, -6), q(1, 2));
    assert_ne!(q(1, 2), q(1, 3));
    assert_eq!(q(6, 3), Rational::from_i64(2));
    assert_eq!(q(0, 7), Rational::from_i64(0));
    assert_eq!(
        Rational::from_integers(Integer::from_i64(10), Integer::from_i64(-4)).unwrap(),
        q(-5, 2)
    );
}

#[test]
fn rational_arithmetic_is_exact() {
    assert_eq!(q(1, 2).add(&q(1, 3)), q(5, 6));
    assert_eq!(q(1, 2).sub(&q(1, 3)), q(1, 6));
    assert_eq!(q(1, 3).sub(&q(1, 2)), q(-1, 6));
    assert_eq!(q(2, 3).mul(&q(3, 4)), q(1, 2));
    assert_eq!(q(2, 3).div(&q(4, 9)), Some(q(3, 2)));
    assert_eq!(q(2, 3).div(&q(-4, 9)), Some(q(-3, 2)));
    assert_eq!(q(2, 3).div(&q(0, 9)), None);
    assert_eq!(q(1, 10).add(&q(2, 10)), q(3, 10));
    assert_eq!(q(-7, 5).neg(), q(7, 5));
    assert_eq!(q(-7, 5).abs(), q(7, 5));
    assert_eq!(q(7, 5).abs(), q(7, 5));
    assert_eq!(q(7, 5).clone(), q(7, 5));
}

#[test]
fn rational_order_and_sign() {
    assert!(q(1, 3).lt(&q(1, 2)));
    assert!(!q(1, 2).lt(&q(1, 3)));
    assert!(!q(1, 2).lt(&q(2, 4)));
    assert!(q(1, 2).le(&q(2, 4)));
    assert!(q(-1, 2).lt(&q(-1, 3)));
    assert!(q(-1, 2).is_negative());
    assert!(q(1, -2).is_negative());
    assert!(!q(-1, -2).is_negative());
    assert!(!q(0, 3).is_negative());
    assert!(!q(1, 1000).is_zero());
}

#[test]
fn rational_arithmetic_with_large_terms() {
    // the harmonic sum 1 + 1/2 + ... + 1/30 against its exact value
    let mut sum = Rational::from_i64(0);
    for k in 1..=30 {
        sum = sum.add(&q(1, k));
    }
    assert_eq!(sum, q(9304682830147, 2329089562800));
}

#[test]
fn natural_round_trips_through_machine_integers() {
    for v in [0u128, 1, 0xffff_ffff, 0x1_0000_0000, u64::MAX as u128, 1 << 64, 1 << 96, u128::MAX] {
        assert_eq!(Natural::from_u128(v).to_u128(), Some(v));
    }
    assert_eq!(Natural::from_u64(77).to_u128(), Some(77));
    let half = Natural::from_u64(1 << 35);
    assert!(Natural::from_u128(1 << 70).eq(&half.mul(&half)));
}

#[test]
fn natural_beyond_machine_width_has_no_machine_value() {
    let max = Natural::from_u128(u128::MAX);
    let beyond = max.add(&Natural::from_u64(1));
    assert_eq!(beyond.to_u128(), None);
    assert_eq!(max.mul(&max).to_u128(), None);
    assert_eq!(beyond.checked_sub(&Natural::from_u64(1)).unwrap().to_u128(), Some(u128::MAX));
}

#[test]
fn rational_terms_beyond_machine_width() {
    // (2^100 / 3) * (3 / 2^100) = 1, and 2^100 / 3 + 2^100 / 3 = 2^101 / 3
    let big = Integer::from_natural(Natural::from_u128(1 << 100));
    let a = Rational::from_integers(big.clone(), Integer::from_i64(3)).unwrap();
    let b = Rational::from_integers(Integer::from_i64(3), big.clone()).unwrap();
    assert_eq!(a.mul(&b), Rational::from_i64(1));
    assert_eq!(a.mul(&a).mul(&b).mul(&b), Rational::from_i64(1));
    let twice = Rational::from_integers(big.add(&big), Integer::from_i64(3)).unwrap();
    assert_eq!(a.add(&a), twice);
    assert_eq!(twice.div(&a), Some(Rational::from_i64(2)));
    assert!(a.lt(&twice));
}
