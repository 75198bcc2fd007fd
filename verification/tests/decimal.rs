use trading_engine::decimal::Dec;

const ONE: i128 = 1_000_000_000_000;

#[test]
fn arithmetic_basics() {
    let a = Dec::from_int(3);
    let b = Dec::from_int(2);
    assert_eq!(a.add(b), Dec::from_units(5 * ONE));
    assert_eq!(a.sub(b), Dec::from_units(1 * ONE));
    assert_eq!(a.mul(b), Dec::from_units(6 * ONE));
    assert_eq!(a.div(b), Dec::from_units(1_500_000_000_000));
    assert!(b.lt(a));
    assert!(b.le(a));
    assert!(a.gt(b));
    assert!(a.is_positive());
    assert!(!Dec::zero().is_positive());
}

#[test]
fn multiplication_truncates_toward_zero() {
    // 10^-7 * 10^-6 = 10^-13, below the fixed scale: truncated to zero.
    let tiny = Dec::from_units(100_000).mul(Dec::from_units(1_000_000));
    assert_eq!(tiny, Dec::from_units(0));
    let neg = Dec::from_units(-100_000).mul(Dec::from_units(1_000_000));
    assert_eq!(neg, Dec::from_units(0));
}

#[test]
fn rounding_is_half_to_even_and_symmetric() {
    // Eight decimal places: the step is 10^4 units.
    assert_eq!(Dec::from_units(5_000).round_dp(8), Dec::from_units(0)); // tie, to even
    assert_eq!(Dec::from_units(15_000).round_dp(8), Dec::from_units(20_000)); // tie, to even
    assert_eq!(Dec::from_units(14_999).round_dp(8), Dec::from_units(10_000));
    assert_eq!(Dec::from_units(15_001).round_dp(8), Dec::from_units(20_000));
    assert_eq!(Dec::from_units(-5_000).round_dp(8), Dec::from_units(0));
    assert_eq!(Dec::from_units(-15_000).round_dp(8), Dec::from_units(-20_000));
    assert_eq!(Dec::from_units(-14_999).round_dp(8), Dec::from_units(-10_000));
}

#[test]
fn from_parts_rescales_exactly_and_rounds_fine_scales() {
    assert_eq!(Dec::from_parts(420_005, 1).unwrap(), Dec::from_units(42_000_500_000_000_000));
    assert_eq!(Dec::from_parts(-5, 0).unwrap(), Dec::from_units(-5 * ONE));
    // Fifteen fractional digits round half-to-even into the fixed scale.
    assert_eq!(Dec::from_parts(1_500, 15).unwrap(), Dec::from_units(2));
    assert_eq!(Dec::from_parts(2_500, 15).unwrap(), Dec::from_units(2));
    // A mantissa too large for the fixed scale is refused.
    assert!(Dec::from_parts(79_000_000_000_000_000_000_000_000_000, 0).is_none());
}

#[test]
fn division_truncates_at_the_fixed_scale() {
    // 1 / 3 = 0.333333333333 (twelve threes, truncated).
    let q = Dec::from_int(1).div(Dec::from_int(3));
    assert_eq!(q, Dec::from_units(333_333_333_333));
    let qn = Dec::from_int(-1).div(Dec::from_int(3));
    assert_eq!(qn, Dec::from_units(-333_333_333_333));
}
