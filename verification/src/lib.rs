//! Declarative binary-structure codec engine.
//!
//! Each codec describes one fragment of a binary layout and can both parse a
//! byte buffer into a structured value and build a structured value back into
//! bytes, with the two operations kept symmetric.

use vstd::prelude::*;

mod codec;
mod encodings;
mod errors;
mod formatfield;
mod hyphen;
mod integers;
mod numeric;
mod strings;
mod value;

pub use codec::{
    lemma_adapter_roundtrip, lemma_build_parse_canonical, lemma_construct_identity,
    lemma_subconstruct_delegates, Adapter, AdapterHooks, Codec, Construct, Subconstruct,
};
pub use encodings::{
    ascii_bytes, ascii_chars, ascii_ok_bytes, ascii_ok_chars, bom16, bom32, decode_string,
    decode_text, decode_utf16_bytes, decode_utf32_bytes, encode_string, encode_text,
    encoding_unit, lemma_ascii_roundtrip, lemma_text_roundtrip, lemma_utf16_roundtrip,
    lemma_utf32_roundtrip, name_describes, name_unit_size, norm_byte, normalized_name, pad_unit,
    unit16_at, unit32_at, unit_bytes16, unit_bytes32, unit_size, units_bytes16, utf16_bytes,
    utf16_unit_of, utf16_units, utf32_bytes, TextEncoding, TextKind,
};
pub use errors::ConstructError;
pub use formatfield::{
    format_is_float, format_length, format_signed, lemma_formatfield_roundtrip_canonical,
    lemma_formatfield_roundtrip_value, lemma_formatfield_sizeof_fixed, FormatField,
};
pub use hyphen::{hyphenate_key, hyphenated_key, hyphenatedict, hyphenatelist};
pub use integers::{
    bits_encoding, bytes_encoding, lemma_bitsinteger_roundtrip_canonical,
    lemma_bitsinteger_roundtrip_value, lemma_bitsinteger_swap_needs_whole_bytes,
    lemma_bitsinteger_unsigned_rejects_negative, lemma_bitsinteger_width_over_max,
    lemma_bitsinteger_width_zero, lemma_bytesinteger_roundtrip_canonical,
    lemma_bytesinteger_roundtrip_value, lemma_bytesinteger_unsigned_rejects_negative,
    lemma_bytesinteger_width_over_max, lemma_integer_sizeof_fixed, BitsInteger, BytesInteger,
};
pub use strings::{
    lemma_cstring_roundtrip, lemma_greedystring_roundtrip, lemma_paddedstring_roundtrip,
    lemma_pascalstring_roundtrip, lemma_string_sizeof, lemma_stringencoded_roundtrip,
    lemma_strip_pad_of_padded, strip_pad, CString, GreedyString, PaddedString, PascalString,
    StringEncoded, TextHooks,
};
pub use value::{build_result_view, parse_result_view, SpecValue, Value};
pub use numeric::{
    bit_of, bits2integer, bits_unsigned, bits_value, bytes2integer, bytes_unsigned, bytes_value,
    fits_bits, fits_bytes, integer2bits, integer2bytes, is_bits, lemma_bits_fit_i128,
    lemma_bits_of_fitting_value, lemma_bits_unsigned_injective, lemma_bits_value_mod,
    lemma_bytes_fit_i128, lemma_bytes_of_fitting_value, lemma_bytes_unsigned_injective,
    lemma_bytes_value_mod, lemma_bytes_value_range, lemma_nat2bits_value, lemma_nat2bytes_value,
    lemma_swap_units_involution, lemma_swap_units_is_bits, nat2bits, nat2bytes, swap_units,
    swap_units_exec, swapbytes,
};
