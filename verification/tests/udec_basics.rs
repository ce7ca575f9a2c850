use fastnum::context::Context;
use fastnum::parse::ParseError;
use fastnum::round::RoundingMode;
use fastnum::udec::UnsignedDecimal;
use fastnum::uint::UInt;
use std::cmp::Ordering;

type UD256 = UnsignedDecimal<4>;

fn ud(s: &str) -> UD256 {
    UD256::from_str(s, Context::default()).unwrap()
}

fn coeff(x: &UD256) -> String {
    String::from_utf8(x.digits().to_decimal_ascii()).unwrap()
}

fn same(x: &UD256, digits: &str, scale: i16) -> bool {
    coeff(x) == digits && x.fractional_digits_count() == scale
}

#[test]
fn from_parts_builds_coefficient_and_exponent() {
    let a = UD256::from_parts(UInt::<4>::from_u64(12345), -4, Context::default());
    assert!(a.eq(&ud("1.2345")));
    assert!(same(&a, "12345", 4));
}

#[test]
fn from_str_reads_and_refuses_signed() {
    assert!(same(&ud("1.2345"), "12345", 4));
    assert!(matches!(UD256::from_str("-1.2345", Context::default()), Err(ParseError::Signed)));
}

#[test]
fn parse_str_reads_a_literal() {
    let a = UD256::parse_str("1.2345", Context::default());
    assert!(same(&a, "12345", 4));
}

#[test]
fn digits_keep_trailing_zeros() {
    assert_eq!(coeff(&ud("123.45")), "12345");
    assert_eq!(coeff(&ud("1.0")), "10");
}

#[test]
fn digits_count_and_fractional_digits() {
    let a = ud("123.4500");
    assert_eq!(a.digits_count(), 7);
    assert_eq!(a.fractional_digits_count(), 4);
    assert_eq!(ud("0").digits_count(), 0);
    assert_eq!(ud("1e3").fractional_digits_count(), -3);
}

#[test]
fn zero_and_one() {
    assert!(ud("0").is_zero());
    assert!(ud("0.000").is_zero());
    assert!(!ud("0.001").is_zero());
    assert!(ud("1").is_one());
    assert!(!ud("1.0").is_one());
    assert!(!ud("2").is_one());
}

#[test]
fn special_values() {
    let ctx = Context::default();
    let inf = UD256::from_str("Infinity", ctx).unwrap();
    assert!(inf.is_infinite());
    assert!(!inf.is_finite());
    let nan = UD256::from_str("nan", ctx).unwrap();
    assert!(nan.is_nan());
    assert!(!nan.eq(&nan));
    assert!(inf.eq(&UD256::from_str("INF", ctx).unwrap()));
    assert!(ud("5").is_finite());
    assert!(ud("5").is_normal());
    assert!(!ud("0").is_normal());
}

#[test]
fn comparisons() {
    assert_eq!(ud("5").cmp(&ud("10")), Ordering::Less);
    assert_eq!(ud("10").cmp(&ud("5")), Ordering::Greater);
    assert_eq!(ud("5").cmp(&ud("5")), Ordering::Equal);
    assert_eq!(ud("5").cmp(&ud("5.000")), Ordering::Equal);
    assert!(ud("1.5").lt(&ud("2")));
    assert!(ud("2").le(&ud("2.0")));
    assert!(ud("2.01").gt(&ud("2")));
    assert!(ud("2").ge(&ud("2")));
    assert!(ud("2").ne(&ud("3")));
    let inf = ud("inf");
    assert_eq!(ud("1e100").cmp(&inf), Ordering::Less);
}

#[test]
fn max_min_clamp() {
    assert!(ud("3").max(ud("7")).eq(&ud("7")));
    assert!(ud("3").min(ud("7")).eq(&ud("3")));
    assert!(ud("1").clamp(ud("2"), ud("4")).eq(&ud("2")));
    assert!(ud("5").clamp(ud("2"), ud("4")).eq(&ud("4")));
    assert!(ud("3").clamp(ud("2"), ud("4")).eq(&ud("3")));
}

#[test]
fn ok_and_is_ok() {
    let a = ud("1.5");
    assert!(a.is_ok());
    assert!(a.ok().is_some());
    let ctx = Context::default().without_traps();
    let inv = UD256::from_str("inf", ctx).unwrap().rescale(2);
    assert!(inv.is_nan());
    assert!(inv.is_op_invalid());
    assert!(inv.is_ok());
    let trapping = inv.with_ctx(Context::default());
    assert!(!trapping.is_ok());
    assert!(trapping.ok().is_none());
}

#[test]
fn with_rounding_mode_keeps_the_value() {
    let a = ud("1.25").with_rounding_mode(RoundingMode::Down);
    assert!(same(&a, "125", 2));
    assert_eq!(a.round(1).fractional_digits_count(), 1);
    assert!(same(&a.round(1), "12", 1));
}

#[test]
fn signed_conversions() {
    let d = ud("1.2345");
    let s = d.to_signed();
    assert!(!s.is_negative());
    let back = UD256::try_from_signed(s).ok().unwrap();
    assert!(back.eq(&d));
    let neg = d.neg();
    assert!(neg.is_negative());
    assert!(UD256::try_from_signed(neg).is_err());
}

#[test]
fn quantum_is_one_unit() {
    let q = UD256::quantum(-3, Context::default());
    assert!(same(&q, "1", 3));
}

#[test]
fn fractional_digits_count_examples() {
    assert_eq!(ud("12345").fractional_digits_count(), 0);
    assert_eq!(ud("123.45").fractional_digits_count(), 2);
    assert_eq!(ud("0.0000012345").fractional_digits_count(), 10);
    assert_eq!(ud("500000000").fractional_digits_count(), 0);
    assert_eq!(ud("5e9").fractional_digits_count(), -9);
}

#[test]
fn is_zero_examples() {
    assert!(ud("0").is_zero());
    assert!(ud("0.0").is_zero());
    assert!(ud("0.00").is_zero());
    assert!(!ud("0.1").is_zero());
}
