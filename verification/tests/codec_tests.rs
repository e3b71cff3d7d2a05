use fixture_codec::codec::{
    decode_arr4_u32, decode_collections, decode_edge_cases, decode_inner, decode_map,
    decode_newtype, decode_opt_i32, decode_tuple_struct, decode_unit, decode_vec_string,
    encode_arr4_u32, encode_collections, encode_edge_cases, encode_inner, encode_map,
    encode_newtype, encode_opt_i32, encode_tuple_struct, encode_unit, encode_vec_string,
    Collections, EdgeCases, InnerStruct, NewtypeStruct, StringIntMap, TupleStruct, UnitStruct,
};
use fixture_codec::prim::{decode_bytes, decode_string, encode_bytes, encode_string};
use fixture_codec::varint::{
    decode_i128, decode_i16, decode_i32, decode_i64, decode_i8, decode_u128, decode_u16,
    decode_u32, decode_u64, decode_u8, encode_i128, encode_i16, encode_i32, encode_i64, encode_i8,
    encode_u128, encode_u16, encode_u32, encode_u64, encode_u8,
};
use fixture_codec::{require_full_consumption, DecodeError};

#[test]
fn bool_true_is_one_byte() {
    let mut out: Vec<u8> = Vec::new();
    fixture_codec::prim::encode_bool(&mut out, true);
    assert_eq!(out, vec![0x01]);
    let mut out2: Vec<u8> = Vec::new();
    fixture_codec::prim::encode_bool(&mut out2, false);
    assert_eq!(out2, vec![0x00]);
    assert_eq!(fixture_codec::prim::decode_bool(&out, 0), Ok((true, 1)));
    assert_eq!(fixture_codec::prim::decode_bool(&out2, 0), Ok((false, 1)));
}

#[test]
fn unsigned_300_is_ac02() {
    let mut out: Vec<u8> = Vec::new();
    encode_u32(&mut out, 300);
    assert_eq!(out, vec![0xAC, 0x02]);
    assert_eq!(decode_u32(&out, 0), Ok((300, 2)));
    assert_eq!(decode_u16(&out, 0), Ok((300, 2)));
}

#[test]
fn option_none_is_single_zero_byte() {
    let mut out: Vec<u8> = Vec::new();
    encode_opt_i32(&mut out, &None);
    assert_eq!(out, vec![0x00]);
    assert_eq!(decode_opt_i32(&out, 0), Ok((None, 1)));
}

#[test]
fn option_some_five_is_tag_then_zigzag() {
    let mut out: Vec<u8> = Vec::new();
    encode_opt_i32(&mut out, &Some(5));
    assert_eq!(out, vec![0x01, 0x0A]);
    assert_eq!(decode_opt_i32(&out, 0), Ok((Some(5), 2)));
}

#[test]
fn unit_struct_encodes_to_zero_bytes() {
    let mut out: Vec<u8> = Vec::new();
    encode_unit(&mut out, &UnitStruct);
    assert_eq!(out.len(), 0);
    let empty: Vec<u8> = Vec::new();
    assert_eq!(decode_unit(&empty, 0), Ok((UnitStruct, 0)));
}

#[test]
fn unsigned_boundaries_round_trip() {
    let mut out: Vec<u8> = Vec::new();
    encode_u8(&mut out, u8::MAX);
    assert_eq!(decode_u8(&out, 0), Ok((u8::MAX, out.len())));
    let mut out: Vec<u8> = Vec::new();
    encode_u16(&mut out, u16::MAX);
    assert_eq!(decode_u16(&out, 0), Ok((u16::MAX, out.len())));
    let mut out: Vec<u8> = Vec::new();
    encode_u32(&mut out, u32::MAX);
    assert_eq!(decode_u32(&out, 0), Ok((u32::MAX, out.len())));
    let mut out: Vec<u8> = Vec::new();
    encode_u64(&mut out, u64::MAX);
    assert_eq!(decode_u64(&out, 0), Ok((u64::MAX, out.len())));
    let mut out: Vec<u8> = Vec::new();
    encode_u128(&mut out, u128::MAX);
    assert_eq!(out.len(), 19);
    assert_eq!(decode_u128(&out, 0), Ok((u128::MAX, 19)));
    let mut out: Vec<u8> = Vec::new();
    encode_u64(&mut out, 0);
    assert_eq!(out, vec![0x00]);
    assert_eq!(decode_u64(&out, 0), Ok((0, 1)));
}

#[test]
fn signed_boundaries_round_trip() {
    let mut out: Vec<u8> = Vec::new();
    encode_i8(&mut out, i8::MIN);
    assert_eq!(decode_i8(&out, 0), Ok((i8::MIN, out.len())));
    let mut out: Vec<u8> = Vec::new();
    encode_i8(&mut out, i8::MAX);
    assert_eq!(decode_i8(&out, 0), Ok((i8::MAX, out.len())));
    let mut out: Vec<u8> = Vec::new();
    encode_i16(&mut out, i16::MIN);
    assert_eq!(decode_i16(&out, 0), Ok((i16::MIN, out.len())));
    let mut out: Vec<u8> = Vec::new();
    encode_i32(&mut out, i32::MAX);
    assert_eq!(decode_i32(&out, 0), Ok((i32::MAX, out.len())));
    let mut out: Vec<u8> = Vec::new();
    encode_i64(&mut out, i64::MIN);
    assert_eq!(decode_i64(&out, 0), Ok((i64::MIN, out.len())));
    let mut out: Vec<u8> = Vec::new();
    encode_i128(&mut out, i128::MIN);
    assert_eq!(decode_i128(&out, 0), Ok((i128::MIN, out.len())));
    let mut out: Vec<u8> = Vec::new();
    encode_i128(&mut out, i128::MAX);
    assert_eq!(decode_i128(&out, 0), Ok((i128::MAX, out.len())));
}

#[test]
fn empties_encode_to_zero_count() {
    let mut out: Vec<u8> = Vec::new();
    encode_bytes(&mut out, &Vec::new());
    assert_eq!(out, vec![0x00]);
    let (v, used) = decode_bytes(&out, 0).unwrap();
    assert_eq!((v.as_slice(), used), (&[] as &[u8], 1));

    let mut out: Vec<u8> = Vec::new();
    encode_string(&mut out, "");
    assert_eq!(out, vec![0x00]);
    assert_eq!(decode_string(&out, 0), Ok((String::new(), 1)));

    let mut out: Vec<u8> = Vec::new();
    encode_map(&mut out, &StringIntMap::new());
    assert_eq!(out, vec![0x00]);
    let (m, used) = decode_map(&out, 0).unwrap();
    assert_eq!((m.entries.len(), used), (0, 1));

    let mut out: Vec<u8> = Vec::new();
    encode_vec_string(&mut out, &Vec::new());
    assert_eq!(out, vec![0x00]);
    let (ss, used) = decode_vec_string(&out, 0).unwrap();
    assert_eq!((ss.len(), used), (0, 1));
}

#[test]
fn varint_must_terminate_within_buffer() {
    assert_eq!(decode_u32(&[0x80], 0), Err(DecodeError::MalformedVarint));
    assert_eq!(decode_u32(&[], 0), Err(DecodeError::MalformedVarint));
}

#[test]
fn varint_must_be_minimal() {
    assert_eq!(decode_u32(&[0x80, 0x00], 0), Err(DecodeError::MalformedVarint));
    assert_eq!(decode_u64(&[0x81, 0x80, 0x00], 0), Err(DecodeError::MalformedVarint));
}

#[test]
fn varint_must_fit_declared_width() {
    let mut out: Vec<u8> = Vec::new();
    encode_u32(&mut out, 300);
    assert_eq!(decode_u8(&out, 0), Err(DecodeError::MalformedVarint));
    let mut out: Vec<u8> = Vec::new();
    encode_u32(&mut out, 70000);
    assert_eq!(decode_u16(&out, 0), Err(DecodeError::MalformedVarint));
}

#[test]
fn option_tag_above_one_is_rejected() {
    assert_eq!(decode_opt_i32(&[0x02], 0), Err(DecodeError::InvalidOptionTag));
    assert_eq!(decode_opt_i32(&[0xFF], 0), Err(DecodeError::InvalidOptionTag));
    assert_eq!(decode_opt_i32(&[], 0), Err(DecodeError::TruncatedInput));
}

#[test]
fn bad_utf8_is_rejected() {
    assert_eq!(decode_string(&[0x01, 0xFF], 0), Err(DecodeError::InvalidUtf8));
    assert_eq!(decode_string(&[0x02, 0xC3, 0x28], 0), Err(DecodeError::InvalidUtf8));
}

#[test]
fn short_payload_is_truncated() {
    assert_eq!(decode_string(&[0x05, b'a'], 0), Err(DecodeError::TruncatedInput));
    assert_eq!(decode_bytes(&[0x03, 1], 0), Err(DecodeError::TruncatedInput));
}

#[test]
fn trailing_bytes_when_caller_requires_exact_consumption() {
    assert_eq!(require_full_consumption(2, 2), Ok(()));
    assert_eq!(require_full_consumption(2, 1), Err(DecodeError::TrailingBytes));
}

#[test]
fn char_round_trips() {
    let mut out: Vec<u8> = Vec::new();
    fixture_codec::prim::encode_char(&mut out, '🦀');
    assert_eq!(fixture_codec::prim::decode_char(&out, 0), Ok(('🦀', out.len())));
    let mut out: Vec<u8> = Vec::new();
    fixture_codec::prim::encode_char(&mut out, 'A');
    assert_eq!(out, vec![0x41]);
    assert_eq!(fixture_codec::prim::decode_char(&out, 0), Ok(('A', 1)));
    // a surrogate codepoint is not a scalar value
    let mut bad: Vec<u8> = Vec::new();
    encode_u32(&mut bad, 0xD800);
    assert_eq!(fixture_codec::prim::decode_char(&bad, 0), Err(DecodeError::InvalidUtf8));
}

#[test]
fn inner_struct_round_trips() {
    let v = InnerStruct { id: 12345, name: "primary".to_string() };
    let mut out: Vec<u8> = Vec::new();
    encode_inner(&mut out, &v);
    let (w, used) = decode_inner(&out, 0).unwrap();
    assert_eq!(used, out.len());
    assert_eq!(w, v);
}

#[test]
fn newtype_struct_is_bare_value() {
    let v = NewtypeStruct(987654321);
    let mut out: Vec<u8> = Vec::new();
    encode_newtype(&mut out, &v);
    let mut bare: Vec<u8> = Vec::new();
    encode_u64(&mut bare, 987654321);
    assert_eq!(out, bare);
    assert_eq!(decode_newtype(&out, 0), Ok((v, out.len())));
}

#[test]
fn tuple_struct_round_trips() {
    let v = TupleStruct("tuple_data".to_string(), 777, true);
    let mut out: Vec<u8> = Vec::new();
    encode_tuple_struct(&mut out, &v);
    let (w, used) = decode_tuple_struct(&out, 0).unwrap();
    assert_eq!(used, out.len());
    assert_eq!(w, v);
}

#[test]
fn fixed_array_has_no_count_prefix() {
    let a: [u32; 4] = [100, 200, 300, 400];
    let mut out: Vec<u8> = Vec::new();
    encode_arr4_u32(&mut out, &a);
    // 100 -> 1 byte, 200 -> 2, 300 -> 2, 400 -> 2; no count byte
    assert_eq!(out.len(), 7);
    let (w, used) = decode_arr4_u32(&out, 0).unwrap();
    assert_eq!(used, 7);
    assert_eq!(w, a);
}

#[test]
fn collections_round_trip() {
    let v = Collections {
        vec_u8: vec![1, 2, 3, 4, 5],
        vec_string: vec!["one".to_string(), "two".to_string(), "three".to_string()],
        array_u32: [100, 200, 300, 400],
        tuple_mixed: (42, "test".to_string(), true),
        option_some: Some(12345),
        option_none: None,
    };
    let mut out: Vec<u8> = Vec::new();
    encode_collections(&mut out, &v);
    let (w, used) = decode_collections(&out, 0).unwrap();
    assert_eq!(used, out.len());
    assert_eq!(w, v);
    assert_eq!(require_full_consumption(out.len(), used), Ok(()));
}

#[test]
fn edge_cases_round_trip() {
    let v = EdgeCases {
        empty_vec: vec![],
        empty_string: String::new(),
        zero: 0,
        max_u8: u8::MAX,
        min_i8: i8::MIN,
        max_i8: i8::MAX,
        max_u16: u16::MAX,
        max_u32: u32::MAX,
        negative: -999999,
    };
    let mut out: Vec<u8> = Vec::new();
    encode_edge_cases(&mut out, &v);
    let (w, used) = decode_edge_cases(&out, 0).unwrap();
    assert_eq!(used, out.len());
    assert_eq!(w, v);
}

#[test]
fn map_insert_replaces_existing_key() {
    let mut m = StringIntMap::new();
    m.insert("alice".to_string(), 100);
    m.insert("bob".to_string(), 200);
    m.insert("alice".to_string(), 300);
    assert_eq!(m.entries.len(), 2);
    assert_eq!(m.entries[0], ("alice".to_string(), 300));
    assert_eq!(m.entries[1], ("bob".to_string(), 200));
}

#[test]
fn map_round_trips_in_stored_order() {
    let mut m = StringIntMap::new();
    m.insert("alice".to_string(), 100);
    m.insert("bob".to_string(), 200);
    m.insert("charlie".to_string(), 300);
    let mut out: Vec<u8> = Vec::new();
    encode_map(&mut out, &m);
    let (w, used) = decode_map(&out, 0).unwrap();
    assert_eq!(used, out.len());
    assert_eq!(w, m);
}

#[test]
fn nested_round_trips() {
    let mut map = StringIntMap::new();
    map.insert("alice".to_string(), 100);
    map.insert("bob".to_string(), 200);
    let v = fixture_codec::codec::Nested {
        inner: InnerStruct { id: 12345, name: "primary".to_string() },
        map,
        vec_of_structs: vec![
            InnerStruct { id: 1, name: "first".to_string() },
            InnerStruct { id: 2, name: "second".to_string() },
        ],
    };
    let mut out: Vec<u8> = Vec::new();
    fixture_codec::codec::encode_nested(&mut out, &v);
    let (w, used) = fixture_codec::codec::decode_nested(&out, 0).unwrap();
    assert_eq!(used, out.len());
    assert_eq!(w, v);
}

#[test]
fn determinism_on_equal_values() {
    let make = || InnerStruct { id: 7, name: "same".to_string() };
    let mut a: Vec<u8> = Vec::new();
    let mut b: Vec<u8> = Vec::new();
    encode_inner(&mut a, &make());
    encode_inner(&mut b, &make());
    assert_eq!(a, b);
}
