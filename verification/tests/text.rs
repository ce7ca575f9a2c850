use fastnum::context::Context;
use fastnum::parse::ParseError;
use fastnum::round::Sign;
use fastnum::udec::UnsignedDecimal;

type UD256 = UnsignedDecimal<4>;

fn ud(s: &str) -> UD256 {
    UD256::from_str(s, Context::default()).unwrap()
}

#[test]
fn scientific_notation() {
    assert_eq!(&ud("12345678").to_scientific_notation(), "1.2345678e7");
    assert_eq!(&ud("0.00123").to_scientific_notation(), "1.23e-3");
    assert_eq!(&ud("5").to_scientific_notation(), "5e0");
    assert_eq!(&ud("inf").to_scientific_notation(), "Inf");
    assert_eq!(&ud("nan").to_scientific_notation(), "NaN");
}

#[test]
fn engineering_notation() {
    assert_eq!(&ud("12345678").to_engineering_notation(), "12.345678e6");
    assert_eq!(&ud("1e4").to_engineering_notation(), "10e3");
    assert_eq!(&ud("0.5").to_engineering_notation(), "500e-3");
}

#[test]
fn parse_errors() {
    let ctx = Context::default();
    assert!(matches!(UD256::from_str("", ctx), Err(ParseError::Empty)));
    assert!(matches!(UD256::from_str("e12", ctx), Err(ParseError::InvalidLiteral)));
    assert!(matches!(UD256::from_str("-", ctx), Err(ParseError::InvalidLiteral)));
    assert!(matches!(UD256::from_str("1.2.3", ctx), Err(ParseError::InvalidLiteral)));
    assert!(matches!(UD256::from_str("1a", ctx), Err(ParseError::InvalidLiteral)));
    assert!(matches!(UD256::from_str("1e", ctx), Err(ParseError::InvalidLiteral)));
    assert!(matches!(UD256::from_str("1e99999999999", ctx), Err(ParseError::ExponentOverflow)));
    assert!(matches!(UD256::from_str("1e40000", ctx), Err(ParseError::PosOverflow)));
    assert!(matches!(UD256::from_str("-1e40000", ctx), Err(ParseError::NegOverflow)));
    assert!(matches!(UD256::from_str("-inf", ctx), Err(ParseError::Signed)));
}

#[test]
fn parse_grammar() {
    let ctx = Context::default();
    let a = UD256::from_str("+1_000.5E-2", ctx).unwrap();
    assert_eq!(String::from_utf8(a.digits().to_decimal_ascii()).unwrap(), "10005");
    assert_eq!(a.fractional_digits_count(), 3);
    let b = UD256::from_str(".5", ctx).unwrap();
    assert_eq!(b.fractional_digits_count(), 1);
    let c = UD256::from_str("5.", ctx).unwrap();
    assert_eq!(c.fractional_digits_count(), 0);
}

#[test]
fn parse_rounds_long_literals() {
    let ctx = Context::default();
    let a = UnsignedDecimal::<1>::from_str("123456789012345678901234567895", ctx).unwrap();
    assert!(a.is_op_rounded());
    assert!(a.is_op_inexact());
    assert_eq!(String::from_utf8(a.digits().to_decimal_ascii()).unwrap(), "12345678901234567890");
    assert_eq!(a.fractional_digits_count(), -10);
}

#[test]
fn error_descriptions() {
    assert_eq!(ParseError::Empty.description(), "cannot parse decimal from empty string");
    assert_eq!(ParseError::InvalidLiteral.description(), "invalid literal found in string");
    assert_eq!(ParseError::PosOverflow.description(), "number too large to fit in target type");
    assert_eq!(ParseError::NegOverflow.description(), "number too small to fit in target type");
    assert_eq!(ParseError::Signed.description(), "number would be signed for unsigned type");
    assert_eq!(ParseError::InvalidRadix.description(), "radix for decimal must be 10");
    assert_eq!(ParseError::ExponentOverflow.description(), "exponent is too large to fit in target type");
    assert_eq!(ParseError::Unknown.description(), "unknown error");
}

#[test]
fn display_formatting() {
    let (plus, text) = fastnum::format::format(b"12345".to_vec(), 2, Sign::Plus, None);
    assert!(plus);
    assert_eq!(text, b"123.45".to_vec());
    let (_, text) = fastnum::format::format(b"12345".to_vec(), 2, Sign::Plus, Some(1));
    assert_eq!(text, b"123.5".to_vec());
    let (_, text) = fastnum::format::format(b"5".to_vec(), 3, Sign::Plus, None);
    assert_eq!(text, b"0.005".to_vec());
    let (_, text) = fastnum::format::format(b"5".to_vec(), -2, Sign::Plus, None);
    assert_eq!(text, b"500".to_vec());
}

#[test]
fn display_formatting_keeps_leading_zeros() {
    let (_, text) = fastnum::format::format(b"05".to_vec(), 2, Sign::Plus, None);
    assert_eq!(text, b"0.05".to_vec());
    let (_, text) = fastnum::format::format(b"05".to_vec(), 2, Sign::Plus, Some(1));
    assert_eq!(text, b"0.1".to_vec());
    let (_, text) = fastnum::format::format(b"0123".to_vec(), 1, Sign::Plus, None);
    assert_eq!(text, b"012.3".to_vec());
    let (_, text) = fastnum::format::format(b"0999".to_vec(), 2, Sign::Plus, Some(1));
    assert_eq!(text, b"10.0".to_vec());
    let (_, text) = fastnum::format::format(b"0999".to_vec(), 1, Sign::Plus, Some(0));
    assert_eq!(text, b"100".to_vec());
    let (_, text) = fastnum::format::format_exponential(b"05".to_vec(), 3, Sign::Plus, None, b'E');
    assert_eq!(text, b"0.5E-2".to_vec());
}

#[test]
fn rounding_a_short_digit_string_leaves_it() {
    let mut digits = b"12".to_vec();
    let mut exp: i128 = 7;
    let carry = fastnum::format::apply_rounding_to_ascii_digits(&mut digits, &mut exp, Sign::Plus, 5);
    assert!(!carry);
    assert_eq!(digits, b"12".to_vec());
    assert_eq!(exp, 7);
    let carry = fastnum::format::apply_rounding_to_ascii_digits(&mut digits, &mut exp, Sign::Plus, 1);
    assert!(!carry);
    assert_eq!(digits, b"1".to_vec());
    assert_eq!(exp, 8);
}
