use fastnum::context::Context;
use fastnum::sint::Int;
use fastnum::udec::UnsignedDecimal;
use std::cmp::Ordering;

type UD256 = UnsignedDecimal<4>;

fn ud(s: &str) -> UD256 {
    UD256::from_str(s, Context::default()).unwrap()
}

fn coeff(x: &UD256) -> String {
    String::from_utf8(x.digits().to_decimal_ascii()).unwrap()
}

#[test]
fn comparison_is_antisymmetric() {
    let a = ud("1.50");
    let b = ud("2");
    assert_eq!(a.cmp(&b), Ordering::Less);
    assert_eq!(b.cmp(&a), Ordering::Greater);
    assert_eq!(ud("1.5").cmp(&a), Ordering::Equal);
    assert_eq!(a.cmp(&ud("1.5")), Ordering::Equal);
}

#[test]
fn comparison_is_reflexive_and_transitive() {
    let (a, b, c) = (ud("0.001"), ud("1e2"), ud("100.5"));
    assert_eq!(a.cmp(&a), Ordering::Equal);
    assert_eq!(a.cmp(&b), Ordering::Less);
    assert_eq!(b.cmp(&c), Ordering::Less);
    assert_eq!(a.cmp(&c), Ordering::Less);
    let nan = ud("nan");
    assert_eq!(nan.cmp(&nan), Ordering::Equal);
}

#[test]
fn equality_agrees_with_comparison() {
    assert!(ud("2.50").eq(&ud("2.5")));
    assert_eq!(ud("2.50").cmp(&ud("2.5")), Ordering::Equal);
    assert!(!ud("2.51").eq(&ud("2.5")));
}

#[test]
fn addition_and_multiplication_commute() {
    let (a, b) = (ud("1.25"), ud("30.5"));
    let ab = a.add(b);
    let ba = b.add(a);
    assert_eq!(coeff(&ab), coeff(&ba));
    assert_eq!(ab.fractional_digits_count(), ba.fractional_digits_count());
    let m1 = a.mul(b);
    let m2 = b.mul(a);
    assert_eq!(coeff(&m1), coeff(&m2));
    assert_eq!(m1.fractional_digits_count(), m2.fractional_digits_count());
}

#[test]
fn subtraction_undoes_addition() {
    let (a, b) = (ud("7.125"), ud("3.5"));
    let back = a.add(b).sub(b);
    assert!(back.eq(&a));
}

#[test]
fn rescale_up_then_back() {
    let a = ud("2.17");
    let up = a.rescale(6);
    assert!(up.eq(&a));
    assert_eq!(coeff(&up), "2170000");
    let back = up.rescale(2);
    assert_eq!(coeff(&back), "217");
    assert_eq!(back.fractional_digits_count(), 2);
}

#[test]
fn quantize_takes_the_other_scale() {
    let q = ud("3.14159").quantize(ud("0.01"));
    assert_eq!(q.fractional_digits_count(), 2);
    assert_eq!(coeff(&q), "314");
}

#[test]
fn widening_then_narrowing_gives_the_value_back() {
    let v = Int::<2>::from_i64(-12345);
    let wide: Int<8> = v.cast();
    let back: Int<2> = wide.try_cast().ok().unwrap();
    assert!(back.eq(&v));
}

#[test]
fn mul_add_with_zero_is_mul() {
    let (a, x) = (ud("1.5"), ud("2.25"));
    let fused = a.mul_add(x, ud("0"));
    let prod = a.mul(x);
    assert_eq!(coeff(&fused), coeff(&prod));
    assert_eq!(fused.fractional_digits_count(), prod.fractional_digits_count());
}

#[test]
fn division_by_one_gives_the_number_back() {
    let a = ud("123.4500");
    let q = a.div(ud("1"));
    assert_eq!(coeff(&q), "1234500");
    assert_eq!(q.fractional_digits_count(), 4);
}

#[test]
fn scientific_notation_reads_back() {
    for text in ["123.45", "0.000120", "5e9", "7", "18446744073709551615e-30"] {
        let a = ud(text);
        let back = ud(&a.to_scientific_notation());
        assert_eq!(coeff(&back), coeff(&a));
        assert_eq!(back.fractional_digits_count(), a.fractional_digits_count());
    }
}
