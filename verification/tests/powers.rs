use fastnum::powers::{
    can_scaled_by_power_of_ten, checked_power_of_five, checked_power_of_ten, decimal_digits, remaining_decimal_digits,
    unchecked_power_of_five, unchecked_power_of_ten,
};
use fastnum::uint::UInt;

fn text<const N: usize>(x: &UInt<N>) -> String {
    String::from_utf8(x.to_decimal_ascii()).unwrap()
}

#[test]
fn decimal_digits_counts() {
    assert_eq!(decimal_digits(&UInt::<1>::from_u64(0)), 0);
    assert_eq!(decimal_digits(&UInt::<1>::from_u64(9)), 1);
    assert_eq!(decimal_digits(&UInt::<1>::from_u64(10)), 2);
    assert_eq!(decimal_digits(&UInt::<1>::max_value()), 20);
    assert_eq!(decimal_digits(&UInt::<4>::from_u64(12345)), 5);
}

#[test]
fn remaining_decimal_digits_counts() {
    // 2^64 - 1 = 18446744073709551615: 20 digits
    assert_eq!(remaining_decimal_digits(&UInt::<1>::from_u64(1844674407370955161)), 1);
    assert_eq!(remaining_decimal_digits(&UInt::<1>::from_u64(1844674407370955162)), 0);
    assert_eq!(remaining_decimal_digits(&UInt::<1>::from_u64(0)), 20);
    assert_eq!(remaining_decimal_digits(&UInt::<1>::from_u64(1)), 19);
}

#[test]
fn powers_of_ten_and_five() {
    assert_eq!(text(&unchecked_power_of_ten::<1>(3)), "1000");
    assert_eq!(text(&unchecked_power_of_five::<1>(3)), "125");
    assert!(checked_power_of_ten::<1>(19).is_some());
    assert!(checked_power_of_ten::<1>(20).is_none());
    assert_eq!(text(&checked_power_of_five::<2>(4).unwrap()), "625");
    assert!(checked_power_of_five::<1>(28).is_none());
}

#[test]
fn scaling_by_powers_of_ten() {
    assert!(can_scaled_by_power_of_ten(&UInt::<1>::from_u64(1844674407370955161), 1));
    assert!(!can_scaled_by_power_of_ten(&UInt::<1>::from_u64(1844674407370955162), 1));
    assert!(can_scaled_by_power_of_ten(&UInt::<1>::from_u64(0), 100));
    assert!(!can_scaled_by_power_of_ten(&UInt::<1>::from_u64(1), 20));
}
