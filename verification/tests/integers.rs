//! The integer codecs: bit strings, byte strings and format fields.

use construct_rs::{
    bits2integer, bytes2integer, integer2bits, integer2bytes, swapbytes, BitsInteger,
    BytesInteger, Codec, ConstructError, FormatField, Value,
};

#[test]
fn test_bitsinteger() {
    let obj = BitsInteger::new(8, None, None);
    let val = obj.parse(&[1u8; 8]).unwrap();
    assert_eq!(val, Value::Int(255));

    let built = obj.build(&Value::Int(255)).unwrap();
    assert_eq!(built, vec![1u8; 8]);
}

#[test]
fn test_singleton_bits() {
    let bit = BitsInteger::new(1, None, None);
    let val = bit.parse(&[1u8]).unwrap();
    assert_eq!(val, Value::Int(1));

    let built = bit.build(&Value::Int(1)).unwrap();
    assert_eq!(built, vec![1u8]);
}

#[test]
fn test_singleton_ints() {
    let int16 = FormatField::new(">", "H").unwrap();
    let val = int16.parse(&[0x01, 0x02]).unwrap();
    assert_eq!(val, Value::Int(0x0102));
    let built = int16.build(&Value::Int(0x0102)).unwrap();
    assert_eq!(built, vec![0x01, 0x02]);
}

#[test]
fn test_singleton_bytesinteger() {
    let int24 = BytesInteger::new(3, None, None);
    let val = int24.parse(&[0x01, 0x02, 0x03]).unwrap();
    assert_eq!(val, Value::Int(0x010203));
    let built = int24.build(&Value::Int(0x010203)).unwrap();
    assert_eq!(built, vec![0x01, 0x02, 0x03]);
}

#[test]
fn test_bit_conversion_functions() {
    assert_eq!(integer2bits(19, 5).unwrap(), vec![1, 0, 0, 1, 1]);
    assert_eq!(bits2integer(&[1, 0, 0, 1, 1], false), 19);
    assert_eq!(bits2integer(&[1, 0, 0, 1, 1], true), -13);
    assert_eq!(integer2bits(-13, 5).unwrap(), vec![1, 0, 0, 1, 1]);
    assert!(matches!(integer2bits(1, 129), Err(ConstructError::IntegerError)));
}

#[test]
fn test_byte_conversion_functions() {
    assert_eq!(integer2bytes(0x0102, 2).unwrap(), vec![1, 2]);
    assert_eq!(bytes2integer(&[1, 2], false), 0x0102);
    assert_eq!(bytes2integer(&[0xFF, 0xFE], true), -2);
    assert_eq!(integer2bytes(-2, 2).unwrap(), vec![0xFF, 0xFE]);
    assert!(matches!(integer2bytes(1, 17), Err(ConstructError::IntegerError)));
    assert_eq!(swapbytes(vec![1, 2, 3]), vec![3, 2, 1]);
}

#[test]
fn test_width_zero_is_degenerate_but_valid() {
    let c = BitsInteger::new(0, None, None);
    assert_eq!(c.parse(&[]).unwrap(), Value::Int(0));
    assert_eq!(c.build(&Value::Int(0)).unwrap(), Vec::<u8>::new());
    assert_eq!(c.sizeof().unwrap(), 0);
}

#[test]
fn test_width_128_succeeds() {
    let c = BitsInteger::new(128, Some(true), None);
    let mut ones = vec![1u8; 128];
    let val = c.parse(&ones).unwrap();
    assert_eq!(val, Value::Int(-1));
    assert_eq!(c.build(&Value::Int(-1)).unwrap(), ones);

    ones[0] = 0;
    let val = c.parse(&ones).unwrap();
    assert_eq!(val, Value::Int(i128::MAX));
}

#[test]
fn test_width_129_fails_with_integer_error() {
    let c = BitsInteger::new(129, None, None);
    assert!(matches!(c.parse(&[0u8; 129]), Err(ConstructError::IntegerError)));
    assert!(matches!(c.build(&Value::Int(0)), Err(ConstructError::IntegerError)));
}

#[test]
fn test_unsigned_rejects_negative() {
    let bits = BitsInteger::new(8, Some(false), None);
    assert!(matches!(bits.build(&Value::Int(-1)), Err(ConstructError::IntegerError)));
    let bytes = BytesInteger::new(2, None, None);
    assert!(matches!(bytes.build(&Value::Int(-1)), Err(ConstructError::IntegerError)));
}

#[test]
fn test_swap_needs_whole_bytes() {
    let c = BitsInteger::new(12, None, Some(true));
    assert!(matches!(c.parse(&[0u8; 12]), Err(ConstructError::IntegerError)));
    assert!(matches!(c.build(&Value::Int(5)), Err(ConstructError::IntegerError)));
}

#[test]
fn test_swapped_bits_reverse_byte_units() {
    let c = BitsInteger::new(16, None, Some(true));
    // 0x0102 in big-endian bits, with the two 8-bit units exchanged
    let wire = [
        0u8, 0, 0, 0, 0, 0, 1, 0,  // low byte 0x02 first
        0, 0, 0, 0, 0, 0, 0, 1,  // high byte 0x01 second
    ];
    assert_eq!(c.parse(&wire).unwrap(), Value::Int(0x0102));
    assert_eq!(c.build(&Value::Int(0x0102)).unwrap(), wire.to_vec());
}

#[test]
fn test_swapped_bytes_reverse() {
    let c = BytesInteger::new(3, None, Some(true));
    assert_eq!(c.parse(&[0x03, 0x02, 0x01]).unwrap(), Value::Int(0x010203));
    assert_eq!(c.build(&Value::Int(0x010203)).unwrap(), vec![0x03, 0x02, 0x01]);
}

#[test]
fn test_parse_length_mismatch_is_stream_error() {
    let c = BitsInteger::new(8, None, None);
    assert!(matches!(c.parse(&[1u8; 7]), Err(ConstructError::StreamError)));
    let d = BytesInteger::new(2, None, None);
    assert!(matches!(d.parse(&[1u8; 3]), Err(ConstructError::StreamError)));
    let f = FormatField::new(">", "H").unwrap();
    assert!(matches!(f.parse(&[1u8]), Err(ConstructError::StreamError)));
}

#[test]
fn test_unsigned_overflow_is_integer_error() {
    let c = BitsInteger::new(128, None, None);
    assert!(matches!(c.parse(&[1u8; 128]), Err(ConstructError::IntegerError)));
    let d = BytesInteger::new(16, None, None);
    assert!(matches!(d.parse(&[0x80u8; 16]), Err(ConstructError::IntegerError)));
}

#[test]
fn test_format_field_kinds() {
    let s8 = FormatField::new(">", "b").unwrap();
    assert_eq!(s8.parse(&[0xFF]).unwrap(), Value::Int(-1));
    assert_eq!(s8.build(&Value::Int(-1)).unwrap(), vec![0xFF]);

    let u32le = FormatField::new("<", "L").unwrap();
    assert_eq!(u32le.parse(&[0x04, 0x03, 0x02, 0x01]).unwrap(), Value::Int(0x01020304));
    assert_eq!(u32le.build(&Value::Int(0x01020304)).unwrap(), vec![0x04, 0x03, 0x02, 0x01]);

    let s64 = FormatField::new(">", "q").unwrap();
    assert_eq!(s64.parse(&[0xFF; 8]).unwrap(), Value::Int(-1));
    assert_eq!(s64.sizeof().unwrap(), 8);
}

#[test]
fn test_format_field_native_round_trips() {
    let u16n = FormatField::new("=", "H").unwrap();
    let wire = u16n.build(&Value::Int(0x0102)).unwrap();
    assert_eq!(wire.len(), 2);
    assert_eq!(u16n.parse(&wire).unwrap(), Value::Int(0x0102));
}

#[test]
fn test_format_field_rejects_out_of_range() {
    let u8f = FormatField::new(">", "B").unwrap();
    assert!(matches!(u8f.build(&Value::Int(256)), Err(ConstructError::IntegerError)));
    assert!(matches!(u8f.build(&Value::Int(-1)), Err(ConstructError::IntegerError)));
    let s16 = FormatField::new(">", "h").unwrap();
    assert!(matches!(s16.build(&Value::Int(0x8000)), Err(ConstructError::IntegerError)));
}

#[test]
fn test_format_field_bad_format_refused() {
    assert!(matches!(FormatField::new(">", "x"), Err(ConstructError::FormatFieldError)));
}

#[test]
fn test_format_field_floats_stay_outside() {
    let f = FormatField::new(">", "f").unwrap();
    assert_eq!(f.sizeof().unwrap(), 4);
    assert!(matches!(f.parse(&[0u8; 4]), Err(ConstructError::FormatFieldError)));
    assert!(matches!(f.build(&Value::Int(0)), Err(ConstructError::FormatFieldError)));
}

#[test]
fn test_wrong_value_kind_is_validation_error() {
    let c = BitsInteger::new(8, None, None);
    assert!(matches!(
        c.build(&Value::Str(String::from("x"))),
        Err(ConstructError::ValidationError)
    ));
}
