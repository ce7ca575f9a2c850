use fastnum::context::Context;
use fastnum::udec::UnsignedDecimal;

type UD256 = UnsignedDecimal<4>;
type UD64 = UnsignedDecimal<1>;

fn ud(s: &str) -> UD256 {
    UD256::from_str(s, Context::default()).unwrap()
}

fn coeff<const N: usize>(x: &UnsignedDecimal<N>) -> String {
    String::from_utf8(x.digits().to_decimal_ascii()).unwrap()
}

#[test]
fn div_five_by_two() {
    let c = ud("5").div(ud("2"));
    assert!(c.eq(&ud("2.5")));
    assert_eq!(coeff(&c), "25");
    assert_eq!(c.fractional_digits_count(), 1);
    assert!(!c.is_op_inexact());
}

#[test]
fn div_keeps_the_ideal_scale_when_exact() {
    let c = ud("6.0").div(ud("2"));
    assert_eq!(coeff(&c), "30");
    assert_eq!(c.fractional_digits_count(), 1);
    let d = ud("8").div(ud("4"));
    assert_eq!(coeff(&d), "2");
    assert_eq!(d.fractional_digits_count(), 0);
    let e = ud("1").div(ud("8"));
    assert_eq!(coeff(&e), "125");
    assert_eq!(e.fractional_digits_count(), 3);
}

#[test]
fn div_rounds_at_full_precision() {
    let ctx = Context::default();
    let one = UD64::from_str("1", ctx).unwrap();
    let three = UD64::from_str("3", ctx).unwrap();
    let c = one.div(three);
    assert_eq!(coeff(&c), "3333333333333333333");
    assert_eq!(c.fractional_digits_count(), 19);
    assert!(c.is_op_inexact());
    assert!(c.is_op_rounded());
    let two = UD64::from_str("2", ctx).unwrap();
    let d = two.div(three);
    assert_eq!(coeff(&d), "6666666666666666667");
}

#[test]
fn div_by_zero() {
    let ctx = Context::default().without_traps();
    let one = UD256::from_str("1", ctx).unwrap();
    let zero = UD256::from_str("0", ctx).unwrap();
    let c = one.div(zero);
    assert!(c.is_infinite());
    assert!(c.is_op_div_by_zero());
    let d = zero.div(zero);
    assert!(d.is_nan());
    assert!(d.is_op_invalid());
}

#[test]
fn div_with_infinities() {
    let ctx = Context::default().without_traps();
    let inf = UD256::from_str("inf", ctx).unwrap();
    let two = UD256::from_str("2", ctx).unwrap();
    assert!(inf.div(two).is_infinite());
    assert!(two.div(inf).is_zero());
    assert!(inf.div(inf).is_nan());
}

#[test]
fn recip_of_two() {
    let r = ud("2").recip();
    assert!(r.eq(&ud("0.5")));
    assert_eq!(coeff(&r), "5");
    assert_eq!(r.fractional_digits_count(), 1);
}

#[test]
fn mul_add_example() {
    let r = ud("10.0").mul_add(ud("4.0"), ud("60"));
    assert!(r.eq(&ud("100")));
    assert_eq!(coeff(&r), "10000");
    assert_eq!(r.fractional_digits_count(), 2);
}

#[test]
fn mul_add_rounds_once() {
    let ctx = Context::default();
    let max = UD64::from_str("18446744073709551615", ctx).unwrap();
    let one = UD64::from_str("1", ctx).unwrap();
    let r = max.mul_add(one, one);
    assert_eq!(coeff(&r), "1844674407370955162");
    assert_eq!(r.fractional_digits_count(), -1);
    assert!(r.is_op_rounded());
}

#[test]
fn mul_add_with_a_tiny_addend() {
    let r = ud("1").mul_add(ud("1"), ud("1e-100"));
    assert!(r.is_op_inexact());
    assert_eq!(r.fractional_digits_count(), 77);
    assert!(r.eq(&ud("1")));
}

#[test]
fn mul_add_infinity_times_zero_is_invalid() {
    let ctx = Context::default().without_traps();
    let inf = UD256::from_str("inf", ctx).unwrap();
    let zero = UD256::from_str("0", ctx).unwrap();
    assert!(inf.mul_add(zero, zero).is_nan());
    assert!(zero.mul_add(zero, inf).is_infinite());
}

#[test]
fn tiny_quotient_is_subnormal() {
    let sub = ud("1E-30000").div(ud("1E2768"));
    assert!(sub.is_subnormal());
    assert!(!sub.is_normal());
    assert!(sub.is_op_subnormal());
    assert!(sub.is_op_underflow());
    assert!(sub.is_op_inexact());
    assert!(!ud("12.4").is_subnormal());
    assert!(ud("12.4").is_normal());
    assert!(!ud("0").is_subnormal());
    assert!(!ud("0").is_normal());
    let nan = UD256::from_str("nan", Context::default().without_traps()).unwrap();
    assert!(!nan.is_subnormal());
    assert!(!nan.is_normal());
}
