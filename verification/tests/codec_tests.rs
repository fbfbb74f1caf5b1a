use contract_client::codec::{DecodeError, EncodeReason, PathSeg};
use contract_client::decode::{decode, decode_prefix};
use contract_client::encode::encode_value;
use contract_client::layout::{TypeLayout, Width};
use contract_client::values::StructuredValue;

fn chars(s: &str) -> Vec<char> {
    s.chars().collect()
}

fn mint_layout() -> TypeLayout {
    TypeLayout::Struct(vec![
        (chars("tokenId"), TypeLayout::UInt(Width::B4)),
        (chars("owner"), TypeLayout::FixedBytes(32)),
    ])
}

#[test]
fn mint_parameter_encodes_to_36_bytes_little_endian() {
    let owner_hex = "ab".repeat(32);
    let v = StructuredValue::Object(vec![
        (chars("tokenId"), StructuredValue::Number(7)),
        (chars("owner"), StructuredValue::Text(chars(&owner_hex))),
    ]);
    let out = encode_value(&v, &mint_layout()).unwrap();
    assert_eq!(out.len(), 36);
    assert_eq!(&out[0..4], &[7, 0, 0, 0]);
    assert_eq!(&out[4..], &[0xabu8; 32][..]);
}

#[test]
fn field_order_of_the_layout_defines_wire_order() {
    let owner_hex = "01".repeat(32);
    // JSON key order differs from layout order; the layout wins.
    let v = StructuredValue::Object(vec![
        (chars("owner"), StructuredValue::Text(chars(&owner_hex))),
        (chars("tokenId"), StructuredValue::Number(513)),
    ]);
    let out = encode_value(&v, &mint_layout()).unwrap();
    assert_eq!(&out[0..4], &[1, 2, 0, 0]);
}

#[test]
fn round_trip_scalars() {
    let cases: Vec<(StructuredValue, TypeLayout)> = vec![
        (StructuredValue::Bool(true), TypeLayout::Bool),
        (StructuredValue::Bool(false), TypeLayout::Bool),
        (StructuredValue::Number(0xDEAD), TypeLayout::UInt(Width::B2)),
        (StructuredValue::Number(u64::MAX), TypeLayout::UInt(Width::B8)),
        (StructuredValue::Text(chars("00ff10")), TypeLayout::VarBytes(Width::B1)),
        (StructuredValue::Text(chars("caffee")), TypeLayout::FixedBytes(3)),
        (StructuredValue::Text(chars("héllo ✓")), TypeLayout::Text(Width::B2)),
        (StructuredValue::Null, TypeLayout::Optional(Box::new(TypeLayout::Bool))),
    ];
    for (v, l) in cases {
        let bytes = encode_value(&v, &l).unwrap();
        let back = decode(&bytes, &l).unwrap();
        assert_eq!(back, v);
    }
}

#[test]
fn round_trip_composites() {
    let l = TypeLayout::Struct(vec![
        (
            chars("items"),
            TypeLayout::List(Width::B1, Box::new(TypeLayout::UInt(Width::B2))),
        ),
        (
            chars("tag"),
            TypeLayout::Union(vec![
                (chars("none"), TypeLayout::Struct(vec![])),
                (chars("some"), TypeLayout::Text(Width::B1)),
            ]),
        ),
        (chars("note"), TypeLayout::Optional(Box::new(TypeLayout::Text(Width::B1)))),
    ]);
    let v = StructuredValue::Object(vec![
        (
            chars("items"),
            StructuredValue::Array(vec![
                StructuredValue::Number(1),
                StructuredValue::Number(65535),
            ]),
        ),
        (
            chars("tag"),
            StructuredValue::Object(vec![(
                chars("some"),
                StructuredValue::Text(chars("hi")),
            )]),
        ),
        (chars("note"), StructuredValue::Text(chars("n"))),
    ]);
    let bytes = encode_value(&v, &l).unwrap();
    let back = decode(&bytes, &l).unwrap();
    assert_eq!(back, v);
}

#[test]
fn kind_mismatch_names_the_nested_path() {
    let l = mint_layout();
    let v = StructuredValue::Object(vec![
        (chars("tokenId"), StructuredValue::Text(chars("seven"))),
        (chars("owner"), StructuredValue::Text(chars(&"ab".repeat(32)))),
    ]);
    let e = encode_value(&v, &l).unwrap_err();
    assert_eq!(e.reason, EncodeReason::KindMismatch);
    assert_eq!(e.path, vec![PathSeg::Field(chars("tokenId"))]);
}

#[test]
fn nested_index_path_on_element_mismatch() {
    let l = TypeLayout::List(Width::B1, Box::new(TypeLayout::Bool));
    let v = StructuredValue::Array(vec![
        StructuredValue::Bool(true),
        StructuredValue::Number(3),
    ]);
    let e = encode_value(&v, &l).unwrap_err();
    assert_eq!(e.reason, EncodeReason::KindMismatch);
    assert_eq!(e.path, vec![PathSeg::Index(1)]);
}

#[test]
fn missing_field_is_reported_with_its_name() {
    let v = StructuredValue::Object(vec![(
        chars("tokenId"),
        StructuredValue::Number(7),
    )]);
    let e = encode_value(&v, &mint_layout()).unwrap_err();
    assert_eq!(e.reason, EncodeReason::MissingField);
    assert_eq!(e.path, vec![PathSeg::Field(chars("owner"))]);
}

#[test]
fn out_of_range_number_is_rejected() {
    let e = encode_value(
        &StructuredValue::Number(256),
        &TypeLayout::UInt(Width::B1),
    )
    .unwrap_err();
    assert_eq!(e.reason, EncodeReason::OutOfRange);
}

#[test]
fn too_long_sequence_is_rejected() {
    let mut items = Vec::new();
    for _ in 0..256 {
        items.push(StructuredValue::Bool(false));
    }
    let e = encode_value(
        &StructuredValue::Array(items),
        &TypeLayout::List(Width::B1, Box::new(TypeLayout::Bool)),
    )
    .unwrap_err();
    assert_eq!(e.reason, EncodeReason::TooLong);
}

#[test]
fn bad_hex_and_bad_length_are_rejected() {
    let e = encode_value(
        &StructuredValue::Text(chars("zz")),
        &TypeLayout::FixedBytes(1),
    )
    .unwrap_err();
    assert_eq!(e.reason, EncodeReason::BadHex);
    let e = encode_value(
        &StructuredValue::Text(chars("ab")),
        &TypeLayout::FixedBytes(2),
    )
    .unwrap_err();
    assert_eq!(e.reason, EncodeReason::BadLength);
}

#[test]
fn unknown_variant_is_rejected() {
    let l = TypeLayout::Union(vec![(chars("a"), TypeLayout::Bool)]);
    let v = StructuredValue::Object(vec![(chars("b"), StructuredValue::Bool(true))]);
    let e = encode_value(&v, &l).unwrap_err();
    assert_eq!(e.reason, EncodeReason::UnknownVariant);
}

#[test]
fn truncated_buffer_fails_to_decode() {
    let data: Vec<u8> = vec![7, 0];
    let e = decode(&data, &TypeLayout::UInt(Width::B4)).unwrap_err();
    assert_eq!(e, DecodeError::Truncated);
    let empty: Vec<u8> = Vec::new();
    assert_eq!(decode(&empty, &TypeLayout::Bool).unwrap_err(), DecodeError::Truncated);
}

#[test]
fn unknown_union_discriminant_fails_to_decode() {
    let l = TypeLayout::Union(vec![
        (chars("a"), TypeLayout::Bool),
        (chars("b"), TypeLayout::Bool),
    ]);
    let data: Vec<u8> = vec![2, 1];
    assert_eq!(decode(&data, &l).unwrap_err(), DecodeError::InvalidTag);
}

#[test]
fn invalid_bool_and_invalid_utf8_and_trailing_bytes() {
    let data: Vec<u8> = vec![3];
    assert_eq!(decode(&data, &TypeLayout::Bool).unwrap_err(), DecodeError::InvalidBool);
    let bad_utf8: Vec<u8> = vec![2, 0xC3, 0x28];
    assert_eq!(
        decode(&bad_utf8, &TypeLayout::Text(Width::B1)).unwrap_err(),
        DecodeError::InvalidUtf8
    );
    let trailing: Vec<u8> = vec![1, 0xFF];
    assert_eq!(decode(&trailing, &TypeLayout::Bool).unwrap_err(), DecodeError::TrailingBytes);
    // A prefix decode accepts the same buffer and reports one byte used.
    let (v, used) = decode_prefix(&trailing, &TypeLayout::Bool).unwrap();
    assert_eq!(v, StructuredValue::Bool(true));
    assert_eq!(used, 1);
}

#[test]
fn text_wire_form_is_length_prefixed_utf8() {
    let v = StructuredValue::Text(chars("é"));
    let out = encode_value(&v, &TypeLayout::Text(Width::B1)).unwrap();
    assert_eq!(out, vec![2, 0xC3, 0xA9]);
}
