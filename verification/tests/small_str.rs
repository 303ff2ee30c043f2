use std::hash::{DefaultHasher, Hash, Hasher};

use tf_idf::small_str::{FromBytesError, SmallString};

#[test]
fn try_from_str_normal() {
    let s: SmallString<10> = "hello".try_into().unwrap();
    assert_eq!(s.as_ref(), "hello");
}

#[test]
fn try_from_str_empty() {
    let s: SmallString<10> = "".try_into().unwrap();
    assert_eq!(s.as_ref(), "");
}

#[test]
fn try_from_str_exact_max() {
    let s: SmallString<5> = "abcde".try_into().unwrap();
    assert_eq!(s.as_ref(), "abcde");
}

#[test]
fn try_from_str_too_long() {
    let r: Result<SmallString<3>, _> = "abcd".try_into();
    assert!(r.is_err());
}

#[test]
fn eq_same() {
    let a: SmallString<10> = "rust".try_into().unwrap();
    let b: SmallString<10> = "rust".try_into().unwrap();
    assert_eq!(a, b);
}

#[test]
fn eq_different() {
    let a: SmallString<10> = "rust".try_into().unwrap();
    let b: SmallString<10> = "go".try_into().unwrap();
    assert_ne!(a, b);
}

#[test]
fn hash_consistent() {
    let a: SmallString<10> = "test".try_into().unwrap();
    let b: SmallString<10> = "test".try_into().unwrap();
    let mut ha = DefaultHasher::new();
    let mut hb = DefaultHasher::new();
    a.hash(&mut ha);
    b.hash(&mut hb);
    assert_eq!(ha.finish(), hb.finish());
}

#[test]
fn into_string() {
    let s: SmallString<10> = "hello".try_into().unwrap();
    let string: String = s.into();
    assert_eq!(string, "hello");
}

#[test]
fn from_bytes_valid() {
    let bytes = b"test";
    let s: SmallString<10> = SmallString::try_from(&bytes[..]).unwrap();
    assert_eq!(s.as_ref(), "test");
}

#[test]
fn from_bytes_invalid_utf8() {
    let bytes = [0xFF, 0xFE];
    let r: Result<SmallString<10>, _> = SmallString::try_from(&bytes[..]);
    assert!(matches!(r, Err(FromBytesError::IllegalString)));
}

#[test]
fn from_bytes_too_large() {
    let bytes = [0u8; 11];
    let r: Result<SmallString<10>, _> = SmallString::try_from(&bytes[..]);
    assert!(matches!(r, Err(FromBytesError::TooLarge)));
}

#[test]
fn multibyte_length_counts_bytes() {
    let r: Result<SmallString<5>, _> = "人工".try_into();
    assert!(r.is_err());
    let s: SmallString<6> = "人工".try_into().unwrap();
    assert_eq!(s.as_str(), "人工");
}

#[test]
fn from_bytes_decodes_multibyte() {
    let bytes = "智能".as_bytes();
    let s: SmallString<6> = SmallString::try_from(bytes).unwrap();
    assert_eq!(s.into_string(), "智能");
}
