use fastnum::parse::ParseError;
use fastnum::sint::Int;
use fastnum::uint::UInt;

type I128 = Int<2>;
type I256 = Int<4>;
type I512 = Int<8>;
type I1024 = Int<16>;

fn same<const N: usize>(a: &Int<N>, b: &Int<N>) -> bool {
    a.eq(b)
}

#[test]
fn test_from_i64_sign_extends() {
    assert!(same(&I512::from_i64(-1), &I512::neg_one()));
    assert!(I512::from_i64(-2).is_negative());
    assert!(same(&I512::from_i64(-100), &I512::from_i64(-100)));
    assert!(I512::from_i64(100).is_positive());
}

#[test]
fn test_cast_sign_extends() {
    let neg_one = I512::neg_one();
    let neg_one_cast: I1024 = neg_one.cast();
    assert!(same(&neg_one_cast, &I1024::neg_one()));
    assert!(neg_one_cast.is_negative());

    let neg_100 = I512::from_i64(-100);
    let neg_100_cast: I1024 = neg_100.cast();
    assert!(same(&neg_100_cast, &I1024::from_i64(-100)));
    assert!(neg_100_cast.is_negative());

    let pos = I512::from_i64(100);
    let pos_cast: I1024 = pos.cast();
    assert!(same(&pos_cast, &I1024::from_i64(100)));
}

#[test]
fn test_cast_i256_to_i512() {
    let neg_one_cast: I512 = I256::neg_one().cast();
    assert!(same(&neg_one_cast, &I512::neg_one()));
    assert!(neg_one_cast.is_negative());
}

#[test]
fn test_cast_i128_to_i256() {
    let neg_one_cast: I256 = I128::neg_one().cast();
    assert!(same(&neg_one_cast, &I256::neg_one()));
    assert!(neg_one_cast.is_negative());
}

#[test]
fn test_try_cast_sign_extends() {
    let small_neg = I1024::from_i64(-100);
    let result: I512 = small_neg.try_cast().ok().unwrap();
    assert!(same(&result, &I512::from_i64(-100)));
    assert!(result.is_negative());

    let result: I512 = I1024::neg_one().try_cast().ok().unwrap();
    assert!(same(&result, &I512::neg_one()));
    assert!(result.is_negative());
}

#[test]
fn try_cast_refuses_values_out_of_range() {
    // 2^64 does not fit one signed limb
    let mut limbs = [0u64; 2];
    limbs[1] = 1;
    let big = I128::from_bits(UInt::<2>::from_digits(limbs));
    assert!(matches!(big.try_cast::<1>(), Err(ParseError::PosOverflow)));
    // 2^63 does not fit either, -2^63 does
    let mut limbs = [0u64; 2];
    limbs[0] = 0x8000_0000_0000_0000;
    let edge = I128::from_bits(UInt::<2>::from_digits(limbs));
    assert!(matches!(edge.try_cast::<1>(), Err(ParseError::PosOverflow)));
    let min = I128::from_i64(i64::MIN);
    assert!(same(&min.try_cast::<1>().ok().unwrap(), &Int::<1>::from_i64(i64::MIN)));
}

#[test]
fn test_from_i64_boundary_values() {
    let min_i64 = I512::from_i64(i64::MIN);
    assert!(min_i64.is_negative());
    let max_i64 = I512::from_i64(i64::MAX);
    assert!(max_i64.is_positive());
    let min_i32 = I512::from_i64(i32::MIN as i64);
    assert!(min_i32.is_negative());
    assert!(I512::from_i64(i32::MAX as i64).is_positive());
}

#[test]
fn test_cast_chain() {
    let val = I128::from_i64(-42);
    let val_256: I256 = val.cast();
    let val_512: I512 = val_256.cast();
    let val_1024: I1024 = val_512.cast();
    assert!(same(&val_256, &I256::from_i64(-42)));
    assert!(same(&val_512, &I512::from_i64(-42)));
    assert!(same(&val_1024, &I1024::from_i64(-42)));
}

#[test]
fn try_cast_unsigned_checks_sign_and_width() {
    assert!(matches!(I256::from_i64(-1).try_cast_unsigned::<4>(), Err(ParseError::Signed)));
    let v = I256::from_i64(42).try_cast_unsigned::<1>().ok().unwrap();
    assert_eq!(String::from_utf8(v.to_decimal_ascii()).unwrap(), "42");
    let mut limbs = [0u64; 2];
    limbs[1] = 1;
    let big = I128::from_bits(UInt::<2>::from_digits(limbs));
    assert!(matches!(big.try_cast_unsigned::<1>(), Err(ParseError::PosOverflow)));
    let wide = big.try_cast_unsigned::<4>().ok().unwrap();
    assert_eq!(String::from_utf8(wide.to_decimal_ascii()).unwrap(), "18446744073709551616");
}
