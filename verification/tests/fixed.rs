use arrayvec::{ArrayString, ArrayVec};
use fastnum::fixed::{insert_char, StringExt, VecExt};
use fastnum::parse::{pretty_error_msg, ParseError};

#[test]
fn insert_char_in_the_middle_and_at_the_end() {
    let mut s = ArrayString::<102>::from("abc").unwrap();
    assert!(insert_char(&mut s, 1, 'X').is_ok());
    assert_eq!(s.as_str(), "aXbc");
    assert!(insert_char(&mut s, 10, 'é').is_ok());
    assert_eq!(s.as_str(), "aXbcé");
    assert!(insert_char(&mut s, 0, '€').is_ok());
    assert_eq!(s.as_str(), "€aXbcé");
}

#[test]
fn insert_char_refuses_when_full() {
    let text: String = std::iter::repeat('a').take(101).collect();
    let mut s = ArrayString::<102>::from(&text).unwrap();
    assert!(insert_char(&mut s, 3, 'é').is_err());
    assert_eq!(s.as_str(), text.as_str());
    assert!(insert_char(&mut s, 3, 'b').is_ok());
    assert_eq!(s.len(), 102);
}

#[test]
fn string_ext_operations() {
    let s = <ArrayString<102> as StringExt>::from_utf8("héllo".as_bytes()).unwrap();
    assert_eq!(s.as_str(), "héllo");
    assert!(<ArrayString<102> as StringExt>::from_utf8(&[0xff, 0xfe]).is_none());
    let bytes = s.into_bytes();
    assert_eq!(bytes.as_slice(), "héllo".as_bytes());
    let mut t = ArrayString::<102>::from("ab").unwrap();
    StringExt::extend(&mut t, &['c', 'd']);
    assert_eq!(t.as_str(), "abcd");
    StringExt::insert(&mut t, 2, '-');
    assert_eq!(t.as_str(), "ab-cd");
}

#[test]
fn vec_ext_operations() {
    let mut v = <ArrayVec<u8, 100> as VecExt<u8>>::from_slice(&[1, 2, 3]);
    assert_eq!(v.as_slice(), &[1, 2, 3]);
    VecExt::resize(&mut v, 5, 9);
    assert_eq!(v.as_slice(), &[1, 2, 3, 9, 9]);
    VecExt::resize(&mut v, 2, 0);
    assert_eq!(v.as_slice(), &[1, 2]);
    VecExt::extend_from_slice(&mut v, &[7, 8]);
    assert_eq!(v.as_slice(), &[1, 2, 7, 8]);
    let e = <ArrayVec<u8, 100> as VecExt<u8>>::with_capacity(10);
    assert!(e.is_empty());
}

#[test]
fn pretty_messages() {
    assert_eq!(pretty_error_msg("UD256", ParseError::Signed), "(fastnum) UD256 does not support negative values");
    assert_eq!(pretty_error_msg("D128", ParseError::Empty), "(fastnum) D128 cannot be constructed from an empty string");
}
