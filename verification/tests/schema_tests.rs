use base64::Engine;
use contract_client::layout::{TypeLayout, Width};
use contract_client::parse::{parse_layout, parse_schema, parse_schema_base64, SchemaParseError};
use contract_client::schema::SchemaLookupError;

fn chars(s: &str) -> Vec<char> {
    s.chars().collect()
}

fn name_bytes(s: &str) -> Vec<u8> {
    let mut out = vec![s.len() as u8];
    out.extend_from_slice(s.as_bytes());
    out
}

/// version 1; one module "rust_sdk_minting_tutorial" with methods "mint"
/// (struct of tokenId: u32, owner: 32 raw bytes; no return) and
/// "tokenMetadata" (empty struct parameter, text return).
fn sample_schema_bytes() -> Vec<u8> {
    let mut b = vec![1u8, 1u8];
    b.extend(name_bytes("rust_sdk_minting_tutorial"));
    b.push(2); // two methods
    b.extend(name_bytes("mint"));
    b.push(0); // no return layout
    b.push(7); // struct tag
    b.push(2); // two fields
    b.extend(name_bytes("tokenId"));
    b.extend([1, 2]); // uint, four bytes wide
    b.extend(name_bytes("owner"));
    b.extend([2, 32, 0, 0, 0]); // fixed bytes, 32
    b.extend(name_bytes("tokenMetadata"));
    b.push(1); // has return layout
    b.extend([7, 0]); // empty struct parameter
    b.extend([4, 0]); // text return, one-byte prefix
    b
}

#[test]
fn parses_and_looks_up_parameter_layout() {
    let schema = parse_schema(&sample_schema_bytes()).unwrap();
    let l = schema
        .lookup_parameter_layout(&chars("rust_sdk_minting_tutorial"), &chars("mint"))
        .unwrap();
    match l {
        TypeLayout::Struct(fs) => {
            assert_eq!(fs.len(), 2);
            assert_eq!(fs[0].0, chars("tokenId"));
            assert_eq!(fs[0].1, TypeLayout::UInt(Width::B4));
            assert_eq!(fs[1].1, TypeLayout::FixedBytes(32));
        }
        other => panic!("unexpected layout {:?}", other),
    }
}

#[test]
fn repeated_lookups_return_identical_layouts() {
    let schema = parse_schema(&sample_schema_bytes()).unwrap();
    let module = chars("rust_sdk_minting_tutorial");
    let l1 = schema.lookup_parameter_layout(&module, &chars("mint")).unwrap();
    let l2 = schema.lookup_parameter_layout(&module, &chars("mint")).unwrap();
    assert_eq!(l1, l2);
    let r1 = schema.lookup_return_layout(&module, &chars("tokenMetadata")).unwrap();
    let r2 = schema.lookup_return_layout(&module, &chars("tokenMetadata")).unwrap();
    assert_eq!(r1, r2);
}

#[test]
fn missing_method_and_module_fail_lookup() {
    let schema = parse_schema(&sample_schema_bytes()).unwrap();
    let module = chars("rust_sdk_minting_tutorial");
    assert_eq!(
        schema.lookup_parameter_layout(&module, &chars("burn")).unwrap_err(),
        SchemaLookupError::MethodNotFound
    );
    assert_eq!(
        schema.lookup_parameter_layout(&chars("other"), &chars("mint")).unwrap_err(),
        SchemaLookupError::ModuleNotFound
    );
}

#[test]
fn mint_has_no_return_layout_and_token_metadata_has_one() {
    let schema = parse_schema(&sample_schema_bytes()).unwrap();
    let module = chars("rust_sdk_minting_tutorial");
    assert_eq!(schema.lookup_return_layout(&module, &chars("mint")).unwrap(), None);
    assert_eq!(
        schema.lookup_return_layout(&module, &chars("tokenMetadata")).unwrap(),
        Some(&TypeLayout::Text(Width::B1))
    );
}

#[test]
fn unknown_major_version_is_rejected() {
    let mut b = sample_schema_bytes();
    b[0] = 2;
    assert_eq!(parse_schema(&b).unwrap_err(), SchemaParseError::UnsupportedVersion);
}

#[test]
fn truncated_and_trailing_schema_bytes_are_rejected() {
    let b = sample_schema_bytes();
    let cut = b[..b.len() - 1].to_vec();
    assert_eq!(parse_schema(&cut).unwrap_err(), SchemaParseError::Truncated);
    let mut extra = b.clone();
    extra.push(0);
    assert_eq!(parse_schema(&extra).unwrap_err(), SchemaParseError::TrailingBytes);
    assert_eq!(parse_schema(&Vec::new()).unwrap_err(), SchemaParseError::Truncated);
}

#[test]
fn malformed_tag_is_rejected() {
    let mut b = vec![1u8, 1u8];
    b.extend(name_bytes("m"));
    b.push(1);
    b.extend(name_bytes("f"));
    b.push(0);
    b.push(99); // no such layout tag
    assert_eq!(parse_schema(&b).unwrap_err(), SchemaParseError::Malformed);
}

#[test]
fn union_with_duplicate_variant_names_is_rejected() {
    // tag 8, two variants, both named "a", each Bool
    let dup = vec![8u8, 2, 1, b'a', 0, 1, b'a', 0];
    assert_eq!(parse_layout(&dup, 0).unwrap_err(), SchemaParseError::Malformed);
    let ok = vec![8u8, 2, 1, b'a', 0, 1, b'b', 0];
    let (l, end) = parse_layout(&ok, 0).unwrap();
    assert_eq!(end, ok.len());
    match l {
        TypeLayout::Union(vs) => {
            assert_eq!(vs.len(), 2);
            assert_eq!(vs[0].0, chars("a"));
            assert_eq!(vs[1].0, chars("b"));
        }
        other => panic!("unexpected layout {:?}", other),
    }
}

#[test]
fn base64_schema_decodes_like_the_raw_bytes() {
    let raw = sample_schema_bytes();
    let text = base64::engine::general_purpose::STANDARD_NO_PAD.encode(&raw);
    let s1 = parse_schema(&raw).unwrap();
    let s2 = parse_schema_base64(&text.into_bytes()).unwrap();
    assert_eq!(s1, s2);
    assert_eq!(
        parse_schema_base64(&b"!!not base64!!".to_vec()).unwrap_err(),
        SchemaParseError::InvalidBase64
    );
}
