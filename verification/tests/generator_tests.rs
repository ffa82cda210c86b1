use core::str::FromStr;
use injectivity::fixed::{Fixed, MAX_MANTISSA, MAX_SCALE};
use injectivity::generator::{finish, GeneratorError, Lehmer, PRECISION, UNIT};
use rust_decimal::prelude::FromPrimitive;
use rust_decimal::{Decimal, RoundingStrategy};

/// The same step in integer arithmetic.
fn park_miller(v: i64) -> u64 {
    let (a, m, q, r): (i128, i128, i128, i128) = (16807, 2147483647, 127773, 2836);
    let v = v as i128;
    let hi = v / q;
    let lo = v - q * hi;
    let mut next = a * lo - r * hi;
    if next <= 0 {
        next += m;
    }
    (next * 10_000_000_000 / m) as u64
}

/// The same step written directly against the decimal crate.
fn with_decimals(v: i64) -> u64 {
    let zero = Decimal::from_str("0").unwrap();
    let one = Decimal::from_str("1").unwrap();
    let mut ca = Decimal::from_str("16807").unwrap();
    ca.rescale(10);
    let mut cm = Decimal::from_str("2147483647").unwrap();
    cm.rescale(10);
    let mut cq = Decimal::from_str("127773").unwrap();
    cq.rescale(10);
    let mut cr = Decimal::from_str("2836").unwrap();
    cr.rescale(10);
    let mut lsd = Decimal::from_i64(v).unwrap();
    lsd.rescale(10);
    let mut whi = lsd / cq;
    whi = whi.round_dp_with_strategy(0, RoundingStrategy::ToZero);
    whi.rescale(10);
    let mut wlo = lsd - cq * whi;
    wlo.rescale(10);
    lsd = ca * wlo - cr * whi;
    if lsd <= zero {
        lsd = lsd + cm;
    }
    let mut lrand = lsd / cm;
    lrand = lrand.round_dp_with_strategy(10, RoundingStrategy::ToZero);
    let mantissa = lrand.mantissa();
    assert!(mantissa >= 0);
    assert!(lrand <= one);
    mantissa as u64
}

fn fixed(mantissa: i128, scale: u32) -> Fixed {
    Fixed::new(mantissa, scale).unwrap()
}

#[test]
fn constants() {
    assert_eq!(PRECISION, 10);
    assert_eq!(UNIT, 10_000_000_000);
    assert_eq!(MAX_SCALE, 28);
    assert_eq!(MAX_MANTISSA, (1i128 << 96) - 1);
}

#[test]
fn fixed_new_accepts_what_fits() {
    assert_eq!(Fixed::new(5, 10), Some(Fixed { mantissa: 5, scale: 10 }));
    assert_eq!(Fixed::new(-MAX_MANTISSA, 28), Some(Fixed { mantissa: -MAX_MANTISSA, scale: 28 }));
    assert_eq!(Fixed::new(MAX_MANTISSA, 0), Some(Fixed { mantissa: MAX_MANTISSA, scale: 0 }));
    assert_eq!(Fixed::new(MAX_MANTISSA + 1, 0), None);
    assert_eq!(Fixed::new(-MAX_MANTISSA - 1, 0), None);
    assert_eq!(Fixed::new(1, 29), None);
}

#[test]
fn fixed_validity() {
    assert!(Fixed { mantissa: 0, scale: 28 }.is_valid());
    assert!(!Fixed { mantissa: 0, scale: 29 }.is_valid());
    assert!(!Fixed { mantissa: i128::MAX, scale: 0 }.is_valid());
    assert!(!Fixed { mantissa: i128::MIN, scale: 0 }.is_valid());
}

#[test]
fn fixed_from_integer() {
    assert_eq!(Fixed::from_i64(-12), Fixed { mantissa: -12, scale: 0 });
    assert_eq!(Fixed::from_i64(i64::MIN), Fixed { mantissa: i64::MIN as i128, scale: 0 });
}

#[test]
fn seed_has_ten_fractional_digits() {
    let g = Lehmer::new();
    assert_eq!(g.seed(5), Fixed { mantissa: 50_000_000_000, scale: 10 });
    assert_eq!(g.seed(-3), Fixed { mantissa: -30_000_000_000, scale: 10 });
    assert_eq!(g.seed(999_999_999), Fixed { mantissa: 9_999_999_990_000_000_000, scale: 10 });
}

#[test]
fn seed_of_a_huge_value_keeps_what_precision_fits() {
    // i64::MAX has 19 digits, so only 9 more fit into 96 bits.
    let g = Lehmer::new();
    let s = g.seed(i64::MAX);
    assert_eq!(s, Fixed { mantissa: (i64::MAX as i128) * 1_000_000_000, scale: 9 });
}

#[test]
fn split_gives_quotient_and_remainder() {
    let g = Lehmer::new();
    let (hi, lo) = g.split(g.seed(127773 * 3 + 5)).unwrap();
    assert_eq!(hi, Fixed { mantissa: 30_000_000_000, scale: 10 });
    assert_eq!(lo, Fixed { mantissa: 50_000_000_000, scale: 10 });
    let (hi, lo) = g.split(g.seed(1)).unwrap();
    assert_eq!(hi.mantissa, 0);
    assert_eq!(lo, Fixed { mantissa: 10_000_000_000, scale: 10 });
}

#[test]
fn advance_multiplies_and_subtracts() {
    let g = Lehmer::new();
    // 16807 * 5 - 2836 * 3 = 75527
    let next = g.advance(g.seed(3), g.seed(5)).unwrap();
    assert_eq!(Decimal::from_i128_with_scale(next.mantissa, next.scale), Decimal::from(75527));
}

#[test]
fn advance_wraps_what_is_not_positive() {
    let g = Lehmer::new();
    // 16807 * 0 - 2836 * 1 = -2836, and -2836 + 2147483647 = 2147480811
    let next = g.advance(g.seed(1), g.seed(0)).unwrap();
    assert_eq!(Decimal::from_i128_with_scale(next.mantissa, next.scale), Decimal::from(2147480811i64));
}

#[test]
fn advance_reports_overflow() {
    let g = Lehmer::new();
    let huge = fixed(MAX_MANTISSA, 0);
    assert_eq!(g.advance(huge, huge), Err(GeneratorError::Overflow));
    assert_eq!(g.advance(g.seed(1), huge), Err(GeneratorError::Overflow));
}

#[test]
fn wrap_leaves_positive_seeds_alone() {
    let g = Lehmer::new();
    let raw = fixed(75527, 0);
    assert_eq!(g.wrap(raw), Ok(raw));
    let tiny = fixed(1, 28);
    assert_eq!(g.wrap(tiny), Ok(tiny));
}

#[test]
fn wrap_adds_the_modulus_to_zero_and_below() {
    let g = Lehmer::new();
    assert_eq!(g.wrap(fixed(0, 0)), Ok(Fixed { mantissa: 21_474_836_470_000_000_000, scale: 10 }));
    assert_eq!(g.wrap(fixed(-5, 0)), Ok(Fixed { mantissa: 21_474_836_420_000_000_000, scale: 10 }));
    assert_eq!(
        g.wrap(fixed(-15, 1)),
        Ok(Fixed { mantissa: 21_474_836_455_000_000_000, scale: 10 })
    );
}

#[test]
fn wrap_at_the_lower_limit() {
    let g = Lehmer::new();
    assert_eq!(
        g.wrap(fixed(-MAX_MANTISSA, 0)),
        Ok(Fixed { mantissa: -MAX_MANTISSA + 2_147_483_647, scale: 0 })
    );
}

#[test]
fn split_of_the_largest_seed() {
    let g = Lehmer::new();
    let (hi, lo) = g.split(fixed(MAX_MANTISSA, 0)).unwrap();
    assert!(hi.is_valid());
    assert!(lo.is_valid());
    assert_eq!(
        Decimal::from_i128_with_scale(hi.mantissa, hi.scale),
        Decimal::from_i128_with_scale(MAX_MANTISSA / 127_773, 0)
    );
    assert_eq!(
        Decimal::from_i128_with_scale(lo.mantissa, lo.scale),
        Decimal::from_i128_with_scale(MAX_MANTISSA % 127_773, 0)
    );
}

#[test]
fn generate_fails_beyond_the_reach_of_the_method() {
    // From hi = 757223 on, r * hi exceeds a * lo + m, and the fraction is negative.
    let g = Lehmer::new();
    let first_bad: i64 = 757_223 * 127_773;
    assert_eq!(g.generate(first_bad - 1), Ok(park_miller(first_bad - 1)));
    assert_eq!(g.generate(first_bad), Err(GeneratorError::NegativeMantissa));
    assert_eq!(g.generate(i64::MAX), Err(GeneratorError::NegativeMantissa));
}

#[test]
fn finish_cuts_to_ten_digits() {
    assert_eq!(finish(fixed(12_345_678_901_234, 14)), Ok(1_234_567_890));
    assert_eq!(finish(fixed(78_263_692_594_049, 19)), Ok(78_263));
    assert_eq!(finish(fixed(9_999_999_999_9, 11)), Ok(9_999_999_999));
}

#[test]
fn finish_keeps_short_values_as_they_are() {
    assert_eq!(finish(fixed(5, 1)), Ok(5));
    assert_eq!(finish(fixed(1, 0)), Ok(1));
    assert_eq!(finish(fixed(0, 0)), Ok(0));
    assert_eq!(finish(fixed(10_000_000_000, 10)), Ok(UNIT));
}

#[test]
fn finish_rejects_negative_values() {
    assert_eq!(finish(fixed(-1, 10)), Err(GeneratorError::NegativeMantissa));
    assert_eq!(finish(fixed(-25, 1)), Err(GeneratorError::NegativeMantissa));
    assert_eq!(finish(fixed(-30_000_000_000_0, 11)), Err(GeneratorError::NegativeMantissa));
}

#[test]
fn finish_accepts_what_truncates_to_zero() {
    assert_eq!(finish(fixed(-1, 11)), Ok(0));
    assert_eq!(finish(fixed(7, 20)), Ok(0));
}

#[test]
fn finish_rejects_values_above_one() {
    assert_eq!(finish(fixed(10_000_000_001, 10)), Err(GeneratorError::AboveOne));
    assert_eq!(finish(fixed(2, 0)), Err(GeneratorError::AboveOne));
    assert_eq!(finish(fixed(100_000_000_019, 11)), Err(GeneratorError::AboveOne));
    assert_eq!(finish(fixed(100_000_000_009, 11)), Ok(UNIT));
}

#[test]
fn generate_known_values() {
    let g = Lehmer::new();
    assert_eq!(g.generate(1), Ok(78_263));
    assert_eq!(g.generate(2), Ok(156_527));
    assert_eq!(g.generate(127_773), Ok(9_999_986_793));
    assert_eq!(g.generate(127_774), Ok(65_057));
    assert_eq!(g.generate(5000), Ok(391_318_462));
    assert_eq!(g.generate(123_456_789), Ok(2_184_182_969));
    assert_eq!(g.generate(999_999_999), Ok(3_692_515_992));
    assert_eq!(g.generate(2_147_483_646), Ok(9_999_921_736));
}

#[test]
fn generate_of_the_modulus_is_one() {
    // The next seed is 0, wrapped to the modulus, and m / m is 1 with no
    // fractional digit.
    let g = Lehmer::new();
    assert_eq!(g.generate(2_147_483_647), Ok(1));
}

#[test]
fn generate_is_deterministic() {
    let g = Lehmer::new();
    let h = Lehmer::new();
    for v in [1i64, 17, 4999, 127_773, 999_999_999] {
        let first = g.generate(v);
        assert_eq!(g.generate(v), first);
        assert_eq!(h.generate(v), first);
    }
    let forwards: Vec<_> = (1..200).map(|v| g.generate(v)).collect();
    let mut backwards: Vec<_> = (1..200).rev().map(|v| g.generate(v)).collect();
    backwards.reverse();
    assert_eq!(forwards, backwards);
}

#[test]
fn generate_stays_in_range() {
    let g = Lehmer::new();
    for v in 1..10_000 {
        let x = g.generate(v).unwrap();
        assert!(x <= UNIT);
    }
}

#[test]
fn generate_agrees_with_integer_arithmetic() {
    let g = Lehmer::new();
    for v in 1..10_000 {
        assert_eq!(g.generate(v), Ok(park_miller(v)));
    }
    for v in [127_773i64, 127_774, 1_000_000, 999_999_999, 2_147_483_646] {
        assert_eq!(g.generate(v), Ok(park_miller(v)));
    }
}

#[test]
fn generate_agrees_with_the_decimal_crate() {
    let g = Lehmer::new();
    for v in 1..3000 {
        assert_eq!(g.generate(v), Ok(with_decimals(v)));
    }
    for v in [127_773i64, 500_000_000, 999_999_999, 2_147_483_646, 2_147_483_647] {
        assert_eq!(g.generate(v), Ok(with_decimals(v)));
    }
}

#[test]
fn generate_handles_any_domain_value() {
    let g = Lehmer::new();
    for v in [0i64, -1, -127_773, i64::MAX, i64::MIN] {
        match g.generate(v) {
            Ok(x) => assert!(x <= UNIT),
            Err(_) => {}
        }
    }
    assert_eq!(g.generate(0), Ok(1));
}
