//! The wire format matches postcard's for the shapes where the two agree:
//! varint unsigned integers, zig-zag signed integers, length-prefixed text
//! and sequences, optionals, tuples and fixed arrays.

use fixture_codec::codec::{encode_opt_i32, encode_tuple_mixed, encode_arr4_u32, encode_vec_string};
use fixture_codec::prim::{encode_bool, encode_string};
use fixture_codec::varint::{
    encode_i128, encode_i16, encode_i32, encode_i64, encode_u128, encode_u16, encode_u32,
    encode_u64,
};

#[test]
fn parity_bool() {
    let mut out: Vec<u8> = Vec::new();
    encode_bool(&mut out, true);
    assert_eq!(out, postcard::to_allocvec(&true).unwrap());
}

#[test]
fn parity_unsigned_varints() {
    let mut out: Vec<u8> = Vec::new();
    encode_u16(&mut out, 65535);
    assert_eq!(out, postcard::to_allocvec(&65535u16).unwrap());
    let mut out: Vec<u8> = Vec::new();
    encode_u32(&mut out, 300);
    assert_eq!(out, postcard::to_allocvec(&300u32).unwrap());
    let mut out: Vec<u8> = Vec::new();
    encode_u64(&mut out, 18446744073709551615);
    assert_eq!(out, postcard::to_allocvec(&18446744073709551615u64).unwrap());
    let mut out: Vec<u8> = Vec::new();
    encode_u128(&mut out, u128::MAX);
    assert_eq!(out, postcard::to_allocvec(&u128::MAX).unwrap());
}

#[test]
fn parity_signed_zigzag() {
    let mut out: Vec<u8> = Vec::new();
    encode_i16(&mut out, -1000);
    assert_eq!(out, postcard::to_allocvec(&-1000i16).unwrap());
    let mut out: Vec<u8> = Vec::new();
    encode_i32(&mut out, -100000);
    assert_eq!(out, postcard::to_allocvec(&-100000i32).unwrap());
    let mut out: Vec<u8> = Vec::new();
    encode_i64(&mut out, -10000000000);
    assert_eq!(out, postcard::to_allocvec(&-10000000000i64).unwrap());
    let mut out: Vec<u8> = Vec::new();
    encode_i128(&mut out, -123456789012345678901234567890);
    assert_eq!(out, postcard::to_allocvec(&-123456789012345678901234567890i128).unwrap());
    let mut out: Vec<u8> = Vec::new();
    encode_i128(&mut out, i128::MIN);
    assert_eq!(out, postcard::to_allocvec(&i128::MIN).unwrap());
}

#[test]
fn parity_string() {
    let mut out: Vec<u8> = Vec::new();
    encode_string(&mut out, "Hello, postcard!");
    assert_eq!(out, postcard::to_allocvec("Hello, postcard!").unwrap());
}

#[test]
fn parity_option() {
    let mut out: Vec<u8> = Vec::new();
    encode_opt_i32(&mut out, &Some(12345));
    assert_eq!(out, postcard::to_allocvec(&Some(12345i32)).unwrap());
    let mut out: Vec<u8> = Vec::new();
    encode_opt_i32(&mut out, &None);
    assert_eq!(out, postcard::to_allocvec(&Option::<i32>::None).unwrap());
}

#[test]
fn parity_tuple_and_array() {
    let t = (42u16, "test".to_string(), true);
    let mut out: Vec<u8> = Vec::new();
    encode_tuple_mixed(&mut out, &t);
    assert_eq!(out, postcard::to_allocvec(&t).unwrap());

    let a: [u32; 4] = [100, 200, 300, 400];
    let mut out: Vec<u8> = Vec::new();
    encode_arr4_u32(&mut out, &a);
    assert_eq!(out, postcard::to_allocvec(&a).unwrap());
}

#[test]
fn parity_string_sequence() {
    let v = vec!["one".to_string(), "two".to_string(), "three".to_string()];
    let mut out: Vec<u8> = Vec::new();
    encode_vec_string(&mut out, &v);
    assert_eq!(out, postcard::to_allocvec(&v).unwrap());
}
