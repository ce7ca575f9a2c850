use fastnum::context::Context;
use fastnum::udec::UnsignedDecimal;

type UD128 = UnsignedDecimal<2>;
type UD64 = UnsignedDecimal<1>;

fn ud(s: &str) -> UD128 {
    UD128::from_str(s, Context::default()).unwrap()
}

fn coeff<const N: usize>(x: &UnsignedDecimal<N>) -> String {
    String::from_utf8(x.digits().to_decimal_ascii()).unwrap()
}

#[test]
fn sqrt_of_squares() {
    assert!(ud("4").sqrt().eq(&ud("2")));
    assert!(ud("1").sqrt().eq(&ud("1")));
    assert!(ud("16").sqrt().eq(&ud("4")));
    let r = ud("16").sqrt();
    assert_eq!(coeff(&r), "4");
    assert_eq!(r.fractional_digits_count(), 0);
    assert!(!r.is_op_inexact());
    assert!(!r.is_op_rounded());
}

#[test]
fn sqrt_keeps_the_ideal_scale() {
    let r = ud("0.04").sqrt();
    assert_eq!(coeff(&r), "2");
    assert_eq!(r.fractional_digits_count(), 1);
    let s = ud("1.0").sqrt();
    assert_eq!(coeff(&s), "10");
    assert_eq!(s.fractional_digits_count(), 1);
    let t = ud("100").sqrt();
    assert_eq!(coeff(&t), "10");
    assert_eq!(t.fractional_digits_count(), 0);
    let z = ud("0.00").sqrt();
    assert!(z.is_zero());
    assert_eq!(z.fractional_digits_count(), 1);
}

#[test]
fn sqrt_finds_the_exact_root_below_the_ideal_scale() {
    let r = ud("2.25").sqrt();
    assert_eq!(coeff(&r), "15");
    assert_eq!(r.fractional_digits_count(), 1);
    let s = ud("0.0121").sqrt();
    assert_eq!(coeff(&s), "11");
    assert_eq!(s.fractional_digits_count(), 2);
    let t = ud("6.25").sqrt();
    assert_eq!(coeff(&t), "25");
    assert_eq!(t.fractional_digits_count(), 1);
    let u = ud("0.25").sqrt();
    assert_eq!(coeff(&u), "5");
    assert_eq!(u.fractional_digits_count(), 1);
}

#[test]
fn sqrt_rounds_at_full_precision() {
    let r = ud("2").sqrt();
    assert_eq!(coeff(&r), "141421356237309504880168872420969807857");
    assert_eq!(r.fractional_digits_count(), 38);
    assert!(r.is_op_inexact());
    assert!(r.is_op_rounded());
    let ctx = Context::default();
    let two = UD64::from_str("2", ctx).unwrap();
    let s = two.sqrt();
    assert_eq!(coeff(&s), "14142135623730950488");
    assert_eq!(s.fractional_digits_count(), 19);
    assert!(s.is_op_inexact());
}

#[test]
fn sqrt_of_special_values() {
    let ctx = Context::default().without_traps();
    let inf = UD128::from_str("inf", ctx).unwrap();
    assert!(inf.sqrt().is_infinite());
    let nan = UD128::from_str("nan", ctx).unwrap();
    let r = nan.sqrt();
    assert!(r.is_nan());
    assert!(r.is_op_invalid());
}

#[test]
fn sqrt_undoes_an_exact_square() {
    for s in ["1.5", "0.012", "12345", "7"] {
        let x = ud(s);
        let r = x.mul(x).sqrt();
        assert_eq!(coeff(&r), coeff(&x));
        assert_eq!(r.fractional_digits_count(), x.fractional_digits_count());
        assert!(!r.is_op_inexact());
    }
}
