use fastnum::context::Context;
use fastnum::udec::UnsignedDecimal;

type UD256 = UnsignedDecimal<4>;
type UD64 = UnsignedDecimal<1>;

fn ud(s: &str) -> UD256 {
    UD256::from_str(s, Context::default()).unwrap()
}

fn coeff<const N: usize>(x: &UnsignedDecimal<N>) -> String {
    String::from_utf8(x.digits().to_decimal_ascii()).unwrap()
}

#[test]
fn powi_examples() {
    assert!(ud("2").powi(3).eq(&ud("8")));
    assert!(ud("9").powi(2).eq(&ud("81")));
    assert!(ud("1").powi(-2).eq(&ud("1")));
    assert!(ud("10").powi(20).eq(&ud("1e20")));
    assert!(ud("4").powi(-2).eq(&ud("0.0625")));
}

#[test]
fn powi_is_exact_when_the_power_fits() {
    let r = ud("1.5").powi(3);
    assert_eq!(coeff(&r), "3375");
    assert_eq!(r.fractional_digits_count(), 3);
    assert!(!r.is_op_inexact());
    let z = ud("0").powi(5);
    assert!(z.is_zero());
    let one = ud("7.25").powi(1);
    assert_eq!(coeff(&one), "725");
    assert_eq!(one.fractional_digits_count(), 2);
}

#[test]
fn powi_of_zero_exponent() {
    let r = ud("12.5").powi(0);
    assert_eq!(coeff(&r), "1");
    assert_eq!(r.fractional_digits_count(), 0);
    let ctx = Context::default().without_traps();
    let z = UD256::from_str("0", ctx).unwrap().powi(0);
    assert!(z.is_nan());
    assert!(z.is_op_invalid());
    let inf = UD256::from_str("inf", ctx).unwrap();
    assert!(inf.powi(0).eq(&ud("1")));
    assert!(inf.powi(2).is_infinite());
    assert!(inf.powi(-1).is_zero());
    let nan = UD256::from_str("nan", ctx).unwrap();
    assert!(nan.powi(2).is_nan());
}

#[test]
fn powi_rounds_each_product() {
    let ctx = Context::default();
    let three = UD64::from_str("3", ctx).unwrap();
    let r = three.powi(41);
    // 3^41 = 36472996377170786403, twenty digits over the capacity of one limb
    assert_eq!(coeff(&r), "3647299637717078640");
    assert_eq!(r.fractional_digits_count(), -1);
    assert!(r.is_op_inexact());
    let zero = UD64::from_str("0", Context::default().without_traps()).unwrap();
    let inv = zero.powi(-1);
    assert!(inv.is_infinite());
    assert!(inv.is_op_div_by_zero());
}
