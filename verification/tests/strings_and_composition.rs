//! The string codecs, the delegation protocol and the key normalization.

use construct_rs::{
    encoding_unit, hyphenate_key, hyphenatedict, hyphenatelist, Adapter, BytesInteger, Codec,
    Construct, ConstructError, CString, GreedyString, PaddedString, PascalString, StringEncoded,
    Subconstruct, TextEncoding, TextHooks, Value,
};

#[test]
fn test_subconstruct_delegation() {
    let inner = Construct::new();
    let sub = Subconstruct::new(inner);
    let res = sub.parse(b"abc").unwrap();
    assert_eq!(res, Value::Bytes(b"abc".to_vec()));
    let built = sub.build(&Value::Bytes(b"abc".to_vec())).unwrap();
    assert_eq!(built, b"abc".to_vec());
}

#[test]
fn test_construct_sizeof_is_dynamic() {
    let c = Construct::new();
    assert!(matches!(c.sizeof(), Err(ConstructError::SizeofError)));
}

#[test]
fn test_adapter_reshapes_around_inner_codec() {
    let enc = TextEncoding::from_name("ascii").unwrap();
    let a = Adapter::new(Construct::new(), TextHooks { enc });
    assert_eq!(a.parse(b"abc").unwrap(), Value::Str(String::from("abc")));
    assert_eq!(a.build(&Value::Str(String::from("abc"))).unwrap(), b"abc".to_vec());
    assert!(matches!(a.sizeof(), Err(ConstructError::SizeofError)));
    assert!(matches!(a.parse(&[0xC0u8]), Err(ConstructError::StringError)));
}

#[test]
fn test_padded_string_scenario() {
    let c = PaddedString::new(8, "ascii").unwrap();
    let built = c.build(&Value::Str(String::from("hi"))).unwrap();
    assert_eq!(built, vec![b'h', b'i', 0, 0, 0, 0, 0, 0]);
    assert_eq!(c.parse(&built).unwrap(), Value::Str(String::from("hi")));
    assert_eq!(c.sizeof().unwrap(), 8);
}

#[test]
fn test_padded_string_too_long() {
    let c = PaddedString::new(4, "ascii").unwrap();
    assert!(matches!(
        c.build(&Value::Str(String::from("toolong"))),
        Err(ConstructError::StringError)
    ));
    assert!(matches!(c.parse(&[0u8; 5]), Err(ConstructError::StreamError)));
}

#[test]
fn test_terminated_string_scenario() {
    let c = CString::new("ascii").unwrap();
    let built = c.build(&Value::Str(String::from("abc"))).unwrap();
    assert_eq!(built, vec![b'a', b'b', b'c', 0]);
    assert_eq!(c.parse(&built).unwrap(), Value::Str(String::from("abc")));
    assert!(matches!(c.parse(b"abc"), Err(ConstructError::StringError)));
}

#[test]
fn test_greedy_string_round_trip() {
    let c = GreedyString::new("utf8").unwrap();
    let built = c.build(&Value::Str(String::from("héllo"))).unwrap();
    assert_eq!(built, "héllo".as_bytes().to_vec());
    assert_eq!(c.parse(&built).unwrap(), Value::Str(String::from("héllo")));
    assert!(matches!(c.parse(&[0xFF, 0xFE, 0xFD]), Err(ConstructError::StringError)));
}

#[test]
fn test_pascal_string_round_trip() {
    let c = PascalString::new(BytesInteger::new(1, None, None), "ascii").unwrap();
    let built = c.build(&Value::Str(String::from("abc"))).unwrap();
    assert_eq!(built, vec![3, b'a', b'b', b'c']);
    assert_eq!(c.parse(&built).unwrap(), Value::Str(String::from("abc")));
    assert!(matches!(c.parse(&[3, b'a', b'b']), Err(ConstructError::StreamError)));
}

#[test]
fn test_string_encoded_adapter() {
    let c = StringEncoded::new(Construct::new(), "ascii").unwrap();
    assert_eq!(c.parse(b"abc").unwrap(), Value::Str(String::from("abc")));
    assert_eq!(c.build(&Value::Str(String::from("abc"))).unwrap(), b"abc".to_vec());
    assert!(matches!(c.parse(&[0x80u8]), Err(ConstructError::StringError)));
}

#[test]
fn test_dynamic_sizeof() {
    let p = PascalString::new(BytesInteger::new(1, None, None), "ascii").unwrap();
    assert!(matches!(p.sizeof(), Err(ConstructError::SizeofError)));
    let t = CString::new("ascii").unwrap();
    assert!(matches!(t.sizeof(), Err(ConstructError::SizeofError)));
    let g = GreedyString::new("ascii").unwrap();
    assert!(matches!(g.sizeof(), Err(ConstructError::SizeofError)));
}

#[test]
fn test_unknown_encoding_rejected_at_construction() {
    assert!(matches!(PaddedString::new(8, "latin1"), Err(ConstructError::StringError)));
    assert!(matches!(CString::new(""), Err(ConstructError::StringError)));
    assert!(matches!(encoding_unit("ebcdic"), Err(ConstructError::StringError)));
}

#[test]
fn test_encoding_units() {
    assert_eq!(encoding_unit("ascii").unwrap(), vec![0u8]);
    assert_eq!(encoding_unit("UTF-8").unwrap(), vec![0u8]);
    assert_eq!(encoding_unit("utf16").unwrap(), vec![0u8, 0]);
    assert_eq!(encoding_unit("utf-16-le").unwrap(), vec![0u8, 0]);
    assert_eq!(encoding_unit("u32").unwrap(), vec![0u8, 0, 0, 0]);
}

#[test]
fn test_utf16_terminated_string() {
    let c = CString::new("utf_16_be").unwrap();
    let built = c.build(&Value::Str(String::from("ab"))).unwrap();
    assert_eq!(built, vec![0, b'a', 0, b'b', 0, 0]);
    assert_eq!(c.parse(&built).unwrap(), Value::Str(String::from("ab")));
}

#[test]
fn test_utf16_surrogate_pairs() {
    let g = GreedyString::new("utf_16_le").unwrap();
    let s = String::from("a\u{10437}");
    let built = g.build(&Value::Str(s.clone())).unwrap();
    assert_eq!(built, vec![0x61, 0x00, 0x01, 0xD8, 0x37, 0xDC]);
    assert_eq!(g.parse(&built).unwrap(), Value::Str(s));
    // a lone high surrogate never decodes
    assert!(matches!(g.parse(&[0x01, 0xD8]), Err(ConstructError::StringError)));
}

#[test]
fn test_utf16_with_byte_order_mark() {
    let g = GreedyString::new("utf16").unwrap();
    let s = String::from("hi");
    let built = g.build(&Value::Str(s.clone())).unwrap();
    assert_eq!(built.len(), 6);
    assert!(built.starts_with(&[0xFF, 0xFE]) || built.starts_with(&[0xFE, 0xFF]));
    assert_eq!(g.parse(&built).unwrap(), Value::Str(s.clone()));
    // either mark is understood on input
    assert_eq!(
        g.parse(&[0xFE, 0xFF, 0x00, b'h', 0x00, b'i']).unwrap(),
        Value::Str(s.clone())
    );
    assert_eq!(
        g.parse(&[0xFF, 0xFE, b'h', 0x00, b'i', 0x00]).unwrap(),
        Value::Str(s)
    );
}

#[test]
fn test_utf32_round_trip() {
    let g = GreedyString::new("utf_32_be").unwrap();
    let s = String::from("A\u{1F600}");
    let built = g.build(&Value::Str(s.clone())).unwrap();
    assert_eq!(built, vec![0, 0, 0, 0x41, 0x00, 0x01, 0xF6, 0x00]);
    assert_eq!(g.parse(&built).unwrap(), Value::Str(s));
    // a surrogate scalar value never decodes
    assert!(matches!(g.parse(&[0x00, 0x00, 0xD8, 0x00]), Err(ConstructError::StringError)));
}

#[test]
fn test_pascal_string_with_format_field_prefix() {
    let c = PascalString::new(
        construct_rs::FormatField::new(">", "H").unwrap(),
        "utf8",
    )
    .unwrap();
    let built = c.build(&Value::Str(String::from("héllo"))).unwrap();
    assert_eq!(built[..2], [0, 6]);
    assert_eq!(&built[2..], "héllo".as_bytes());
    assert_eq!(c.parse(&built).unwrap(), Value::Str(String::from("héllo")));
}

#[test]
fn test_subconstruct_over_leaf_codec() {
    let sub = Subconstruct::new(BytesInteger::new(2, None, None));
    assert_eq!(sub.parse(&[0x12, 0x34]).unwrap(), Value::Int(0x1234));
    assert_eq!(sub.build(&Value::Int(0x1234)).unwrap(), vec![0x12, 0x34]);
    assert_eq!(sub.sizeof().unwrap(), 2);
}

#[test]
fn test_byte_first_round_trip_on_canonical_buffers() {
    let bits = construct_rs::BitsInteger::new(8, None, None);
    let buf = vec![1u8, 0, 1, 0, 1, 0, 1, 0];
    let v = bits.parse(&buf).unwrap();
    assert_eq!(bits.build(&v).unwrap(), buf);

    let padded = PaddedString::new(6, "ascii").unwrap();
    let canonical = vec![b'o', b'k', 0, 0, 0, 0];
    let s = padded.parse(&canonical).unwrap();
    assert_eq!(padded.build(&s).unwrap(), canonical);
}

#[test]
fn test_hyphenation() {
    assert_eq!(hyphenate_key("foo_bar"), "foo-bar");
    assert_eq!(hyphenate_key("baz_"), "baz");
    let input = vec![
        (String::from("foo_bar"), String::from("1")),
        (String::from("baz_"), String::from("2")),
    ];
    let out = hyphenatedict(&input);
    assert_eq!(out.len(), 2);
    assert_eq!(out[0], (String::from("foo-bar"), String::from("1")));
    assert_eq!(out[1], (String::from("baz"), String::from("2")));

    let listed = hyphenatelist(&vec![input]);
    assert_eq!(listed.len(), 1);
    assert_eq!(listed[0][1], (String::from("baz"), String::from("2")));
}
