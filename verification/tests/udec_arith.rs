use fastnum::context::Context;
use fastnum::round::RoundingMode;
use fastnum::udec::UnsignedDecimal;

type UD256 = UnsignedDecimal<4>;
type UD64 = UnsignedDecimal<1>;

fn ud(s: &str) -> UD256 {
    UD256::from_str(s, Context::default()).unwrap()
}

fn coeff(x: &UD256) -> String {
    String::from_utf8(x.digits().to_decimal_ascii()).unwrap()
}

fn same(x: &UD256, digits: &str, scale: i16) -> bool {
    coeff(x) == digits && x.fractional_digits_count() == scale
}

#[test]
fn add_one_and_two() {
    assert!(ud("1").add(ud("2")).eq(&ud("3")));
}

#[test]
fn add_aligns_scales() {
    let c = ud("1.25").add(ud("10.5"));
    assert!(same(&c, "1175", 2));
}

#[test]
fn add_rounds_when_too_long() {
    // 2^64 - 1 is the largest coefficient of one limb
    let a = UD64::from_str("18446744073709551615", Context::default()).unwrap();
    let b = UD64::from_str("1", Context::default()).unwrap();
    let c = a.add(b);
    assert!(c.is_op_rounded());
    assert_eq!(String::from_utf8(c.digits().to_decimal_ascii()).unwrap(), "1844674407370955162");
    assert_eq!(c.fractional_digits_count(), -1);
}

#[test]
fn sub_five_minus_two() {
    assert!(ud("5").sub(ud("2")).eq(&ud("3")));
    assert!(same(&ud("5.5").sub(ud("2.25")), "325", 2));
}

#[test]
fn sub_below_zero_is_invalid() {
    let ctx = Context::default().without_traps();
    let a = UD256::from_str("0", ctx).unwrap();
    let b = UD256::from_str("1", ctx).unwrap();
    let c = a.sub(b);
    assert!(c.is_nan());
    assert!(c.is_op_invalid());
}

#[test]
fn mul_five_by_two() {
    assert!(ud("5").mul(ud("2")).eq(&ud("10")));
    assert!(same(&ud("1.5").mul(ud("2.5")), "375", 2));
}

#[test]
fn mul_infinity_by_zero_is_invalid() {
    let ctx = Context::default().without_traps();
    let inf = UD256::from_str("inf", ctx).unwrap();
    let zero = UD256::from_str("0", ctx).unwrap();
    assert!(inf.mul(zero).is_nan());
    assert!(inf.mul(UD256::from_str("2", ctx).unwrap()).is_infinite());
}

#[test]
fn rem_five_by_two() {
    assert!(ud("5").rem(ud("2")).eq(&ud("1")));
    assert!(same(&ud("5.5").rem(ud("2")), "15", 1));
    assert!(same(&ud("7").rem(ud("0.25")), "0", 2));
    assert!(same(&ud("1").rem(ud("0.3")), "1", 1));
}

#[test]
fn rem_by_zero_is_invalid() {
    let ctx = Context::default().without_traps();
    let a = UD256::from_str("5", ctx).unwrap();
    let z = UD256::from_str("0", ctx).unwrap();
    assert!(a.rem(z).is_nan());
}

#[test]
fn rescale_examples() {
    let n = ud("2.17");
    assert!(same(&n.rescale(3), "2170", 3));
    assert!(same(&n.rescale(2), "217", 2));
    assert!(same(&n.rescale(1), "22", 1));
    assert!(same(&n.rescale(0), "2", 0));
    assert!(same(&n.rescale(-1), "0", -1));
    let ctx = Context::default().without_traps();
    assert!(UD256::from_str("inf", ctx).unwrap().rescale(2).is_nan());
    assert!(UD256::from_str("nan", ctx).unwrap().rescale(1).is_nan());
}

#[test]
fn quantize_examples() {
    let ctx = Context::default().without_traps();
    let n = ud("2.17");
    assert!(same(&n.quantize(ud("0.001")), "2170", 3));
    assert!(same(&n.quantize(ud("0.01")), "217", 2));
    assert!(same(&n.quantize(ud("0.1")), "22", 1));
    assert!(same(&n.quantize(ud("1e+0")), "2", 0));
    assert!(same(&n.quantize(ud("1e+1")), "0", -1));
    let inf = ud("inf");
    assert!(inf.quantize(inf).is_infinite());
    assert!(ud("2").with_ctx(ctx).quantize(inf).is_nan());
    assert!(same(&ud("0.1").quantize(ud("1")), "0", 0));
    assert!(same(&ud("0").quantize(ud("1e+5")), "0", -5));
    assert!(same(&ud("217").quantize(ud("1e-1")), "2170", 1));
    assert!(same(&ud("217").quantize(ud("1e+0")), "217", 0));
    assert!(same(&ud("217").quantize(ud("1e+1")), "22", -1));
    assert!(same(&ud("217").quantize(ud("1e+2")), "2", -2));
}

#[test]
fn round_examples() {
    let n = ud("129.41675");
    assert!(same(&n.round(2), "12942", 2));
    assert!(same(&n.with_rounding_mode(RoundingMode::Up).round(2), "12942", 2));
    assert!(same(&n.with_rounding_mode(RoundingMode::Down).round(-1), "12", -1));
    assert!(same(&n.with_rounding_mode(RoundingMode::HalfEven).round(4), "1294168", 4));
}

#[test]
fn floor_examples() {
    assert!(ud("3.99").floor().eq(&ud("3")));
    assert!(ud("3.0").floor().eq(&ud("3.0")));
    assert!(ud("3.01").floor().eq(&ud("3")));
    assert!(ud("3.5").floor().eq(&ud("3")));
    assert!(ud("4.0").floor().eq(&ud("4")));
}

#[test]
fn ceil_examples() {
    assert!(ud("3.01").ceil().eq(&ud("4")));
    assert!(ud("3.99").ceil().eq(&ud("4")));
    assert!(ud("4.0").ceil().eq(&ud("4")));
    assert!(ud("1.0001").ceil().eq(&ud("2")));
    assert!(ud("1.00001").ceil().eq(&ud("2")));
    assert!(ud("1.000001").ceil().eq(&ud("2")));
    assert!(ud("1.00000000000001").ceil().eq(&ud("2")));
}

#[test]
fn trunc_drops_the_fraction() {
    assert!(same(&ud("3.99").trunc(), "3", 0));
    assert!(same(&ud("3.999").trunc_with_scale(2), "399", 2));
}

#[test]
fn reduce_moves_trailing_zeros() {
    assert!(same(&ud("1.2300").reduce(), "123", 2));
    assert!(same(&ud("1200").reduce(), "12", -2));
    assert!(same(&ud("0.000").reduce(), "0", 0));
}

#[test]
fn resize_changes_the_width() {
    let a = ud("1.5");
    let b: UD64 = a.resize();
    assert_eq!(String::from_utf8(b.digits().to_decimal_ascii()).unwrap(), "15");
    assert_eq!(b.fractional_digits_count(), 1);
    let big = ud("123456789012345678901234567890");
    let small: UD64 = big.resize();
    assert!(small.is_op_rounded());
    assert_eq!(String::from_utf8(small.digits().to_decimal_ascii()).unwrap(), "12345678901234567890");
    assert_eq!(small.fractional_digits_count(), -10);
    let t: UD64 = a.transmute();
    assert!(t.eq(&b));
}
