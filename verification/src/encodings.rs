//! Character encodings: the recognised encoding names, their pad/terminator
//! units, and the conversion between text and bytes for each name family.
//!
//! Names are matched after replacing `-` with `_` and lowering ASCII case,
//! as in `utf-16-le` to `utf_16_le`.  The single-byte family (`ascii`,
//! `utf8` and aliases) pads with one zero byte, the `utf16` family with two,
//! the `utf32` family with four.

use vstd::prelude::*;
use vstd::utf8::{decode_utf8, encode_utf8, is_scalar, valid_utf8};
use vstd::slice::slice_subrange;
use vstd::string::StrSliceExecFns;

use crate::errors::ConstructError;

verus! {

/// Name normalization, one byte at a time: `-` becomes `_` and ASCII
/// upper case becomes lower case.
pub open spec fn norm_byte(b: u8) -> u8 {
    if b == 45 {
        95
    } else if 65 <= b && b <= 90 {
        (b + 32) as u8
    } else {
        b
    }
}

/// An encoding name's UTF-8 bytes after normalization.
pub open spec fn normalized_name(s: Seq<char>) -> Seq<u8> {
    encode_utf8(s).map_values(|b: u8| norm_byte(b))
}

/// The code-unit size that an encoding name selects: 1, 2 or 4 bytes, or 0
/// for a name the engine does not recognise.
pub open spec fn name_unit_size(s: Seq<char>) -> nat {
    let n = normalized_name(s);
    if n == encode_utf8("ascii"@) || n == encode_utf8("utf8"@) || n == encode_utf8("utf_8"@) || n
        == encode_utf8("u8"@) {
        1
    } else if n == encode_utf8("utf16"@) || n == encode_utf8("utf_16"@) || n == encode_utf8(
        "u16"@,
    ) || n == encode_utf8("utf_16_be"@) || n == encode_utf8("utf_16_le"@) {
        2
    } else if n == encode_utf8("utf32"@) || n == encode_utf8("utf_32"@) || n == encode_utf8(
        "u32"@,
    ) || n == encode_utf8("utf_32_be"@) || n == encode_utf8("utf_32_le"@) {
        4
    } else {
        0
    }
}

/// The pad and terminator pattern of a code unit: that many zero bytes.
pub open spec fn pad_unit(n: nat) -> Seq<u8> {
    Seq::new(n, |i: int| 0u8)
}

/// The four encoding families the engine converts.
#[derive(Clone, Copy, PartialEq, Eq, Structural)]
pub enum TextKind {
    Ascii,
    Utf8,
    Utf16,
    Utf32,
}

/// A resolved encoding: the family, the byte order of its multi-byte code
/// units, and whether encoded text starts with a byte-order mark.  The
/// unsuffixed multi-byte names resolve to the platform's own byte order
/// with a mark; the `_be`/`_le` names are fixed and unmarked.
#[derive(Clone, Copy, PartialEq, Eq, Structural)]
pub struct TextEncoding {
    /// The encoding family.
    pub kind: TextKind,
    /// Little-endian code units, for the two- and four-byte families.
    pub little: bool,
    /// Encoded text carries a leading byte-order mark.
    pub bom: bool,
}

/// The code-unit size of a resolved encoding.
pub open spec fn unit_size(te: TextEncoding) -> nat {
    match te.kind {
        TextKind::Ascii => 1,
        TextKind::Utf8 => 1,
        TextKind::Utf16 => 2,
        TextKind::Utf32 => 4,
    }
}

/// Which resolved encodings an encoding name may produce.  The byte order
/// of the unsuffixed multi-byte names is the platform's and is the one
/// detail this predicate leaves open.
pub open spec fn name_describes(name: Seq<char>, te: TextEncoding) -> bool {
    let n = normalized_name(name);
    if n == encode_utf8("ascii"@) {
        te == (TextEncoding { kind: TextKind::Ascii, little: false, bom: false })
    } else if n == encode_utf8("utf8"@) || n == encode_utf8("utf_8"@) || n == encode_utf8("u8"@) {
        te == (TextEncoding { kind: TextKind::Utf8, little: false, bom: false })
    } else if n == encode_utf8("utf16"@) || n == encode_utf8("utf_16"@) || n == encode_utf8(
        "u16"@,
    ) {
        te.kind == TextKind::Utf16 && te.bom
    } else if n == encode_utf8("utf_16_be"@) {
        te == (TextEncoding { kind: TextKind::Utf16, little: false, bom: false })
    } else if n == encode_utf8("utf_16_le"@) {
        te == (TextEncoding { kind: TextKind::Utf16, little: true, bom: false })
    } else if n == encode_utf8("utf32"@) || n == encode_utf8("utf_32"@) || n == encode_utf8(
        "u32"@,
    ) {
        te.kind == TextKind::Utf32 && te.bom
    } else if n == encode_utf8("utf_32_be"@) {
        te == (TextEncoding { kind: TextKind::Utf32, little: false, bom: false })
    } else if n == encode_utf8("utf_32_le"@) {
        te == (TextEncoding { kind: TextKind::Utf32, little: true, bom: false })
    } else {
        false
    }
}

/// Whether two byte strings are equal, element by element.
fn bytes_eq(a: &[u8], b: &[u8]) -> (r: bool)
    ensures
        r == (a@ == b@),
{
    if a.len() != b.len() {
        proof {
            assert(a@ != b@);
        }
        return false;
    }
    let n = a.len();
    let mut i: usize = 0;
    while i < n
        invariant
            i <= n,
            n == a@.len() == b@.len(),
            forall|j: int| 0 <= j < i ==> a@[j] == b@[j],
        decreases n - i,
    {
        if a[i] != b[i] {
            proof {
                assert(a@ != b@);
            }
            return false;
        }
        i = i + 1;
    }
    proof {
        assert(a@ =~= b@);
    }
    true
}

/// An encoding name's UTF-8 bytes, normalized for matching.
fn normalize_name_exec(enc: &str) -> (r: Vec<u8>)
    ensures
        r@ == normalized_name(enc@),
{
    let bytes = enc.as_bytes();
    let n = bytes.len();
    let mut out: Vec<u8> = Vec::new();
    let mut i: usize = 0;
    while i < n
        invariant
            i <= n,
            n == bytes@.len(),
            bytes@ == encode_utf8(enc@),
            out@.len() == i,
            forall|j: int| 0 <= j < i ==> out@[j] == norm_byte(bytes@[j]),
        decreases n - i,
    {
        let b = bytes[i];
        let nb: u8 = if b == 45 {
            95
        } else if 65 <= b && b <= 90 {
            b + 32
        } else {
            b
        };
        out.push(nb);
        i = i + 1;
    }
    proof {
        assert(out@ =~= normalized_name(enc@));
    }
    out
}

/// Relies on `u16::to_ne_bytes`: the platform's byte order decides which
/// byte of the value 1 comes first.  Nothing is assumed of the answer.
#[verifier::external_body]
pub(crate) fn platform_is_little() -> bool {
    u16::to_ne_bytes(1)[0] == 1
}

impl TextEncoding {
    /// Resolve an encoding name.  Unknown names are rejected here, at
    /// construction time, never later.
    pub fn from_name(enc: &str) -> (r: Result<TextEncoding, ConstructError>)
        ensures
            name_unit_size(enc@) == 0 ==> r == Err::<TextEncoding, ConstructError>(
                ConstructError::StringError,
            ),
            name_unit_size(enc@) != 0 ==> (r matches Ok(te) && name_describes(enc@, te)
                && unit_size(te) == name_unit_size(enc@)),
    {
        let norm = normalize_name_exec(enc);
        let n = norm.as_slice();
        if bytes_eq(n, "ascii".as_bytes()) {
            Ok(TextEncoding { kind: TextKind::Ascii, little: false, bom: false })
        } else if bytes_eq(n, "utf8".as_bytes()) || bytes_eq(n, "utf_8".as_bytes()) || bytes_eq(
            n,
            "u8".as_bytes(),
        ) {
            Ok(TextEncoding { kind: TextKind::Utf8, little: false, bom: false })
        } else if bytes_eq(n, "utf16".as_bytes()) || bytes_eq(n, "utf_16".as_bytes()) || bytes_eq(
            n,
            "u16".as_bytes(),
        ) {
            Ok(TextEncoding { kind: TextKind::Utf16, little: platform_is_little(), bom: true })
        } else if bytes_eq(n, "utf_16_be".as_bytes()) {
            Ok(TextEncoding { kind: TextKind::Utf16, little: false, bom: false })
        } else if bytes_eq(n, "utf_16_le".as_bytes()) {
            Ok(TextEncoding { kind: TextKind::Utf16, little: true, bom: false })
        } else if bytes_eq(n, "utf32".as_bytes()) || bytes_eq(n, "utf_32".as_bytes()) || bytes_eq(
            n,
            "u32".as_bytes(),
        ) {
            Ok(TextEncoding { kind: TextKind::Utf32, little: platform_is_little(), bom: true })
        } else if bytes_eq(n, "utf_32_be".as_bytes()) {
            Ok(TextEncoding { kind: TextKind::Utf32, little: false, bom: false })
        } else if bytes_eq(n, "utf_32_le".as_bytes()) {
            Ok(TextEncoding { kind: TextKind::Utf32, little: true, bom: false })
        } else {
            Err(ConstructError::StringError)
        }
    }
}

/// The pad/terminator unit of an encoding name: as many zero bytes as the
/// name's code-unit size, or the string error for an unknown name.
pub fn encoding_unit(enc: &str) -> (r: Result<Vec<u8>, ConstructError>)
    ensures
        name_unit_size(enc@) == 0 ==> r == Err::<Vec<u8>, ConstructError>(
            ConstructError::StringError,
        ),
        name_unit_size(enc@) != 0 ==> (r matches Ok(p) && p@ == pad_unit(name_unit_size(enc@))),
{
    let te = match TextEncoding::from_name(enc) {
        Ok(te) => te,
        Err(e) => {
            return Err(e);
        },
    };
    let size: usize = match te.kind {
        TextKind::Ascii => 1,
        TextKind::Utf8 => 1,
        TextKind::Utf16 => 2,
        TextKind::Utf32 => 4,
    };
    let mut pad: Vec<u8> = Vec::new();
    let mut i: usize = 0;
    while i < size
        invariant
            i <= size,
            pad@.len() == i,
            forall|j: int| 0 <= j < i ==> pad@[j] == 0u8,
        decreases size - i,
    {
        pad.push(0);
        i = i + 1;
    }
    proof {
        assert(pad@ =~= pad_unit(name_unit_size(enc@)));
    }
    Ok(pad)
}

/// Relies on `str::from_utf8` and `str::to_owned`: the bytes decode to a
/// string exactly when they are valid UTF-8, and the string's characters
/// are the decoded scalars.
#[verifier::external_body]
fn utf8_to_string(bytes: &[u8]) -> (r: Option<String>)
    ensures
        r is Some <==> valid_utf8(bytes@),
        r matches Some(s) ==> s@ == decode_utf8(bytes@),
{
    match core::str::from_utf8(bytes) {
        Ok(s) => Some(s.to_owned()),
        Err(_) => None,
    }
}

/// Appending a character appends its scalar's UTF-8 encoding.
pub proof fn lemma_encode_utf8_push(s: Seq<char>, c: char)
    ensures
        encode_utf8(s.push(c)) == encode_utf8(s) + vstd::utf8::encode_scalar(c as u32),
    decreases s.len(),
{
    if s.len() == 0 {
        assert(s.push(c) =~= seq![c]);
        assert((seq![c]).drop_first() =~= Seq::<char>::empty());
        assert(encode_utf8(Seq::<char>::empty()) =~= Seq::<u8>::empty());
        assert(encode_utf8(s.push(c)) =~= encode_utf8(s) + vstd::utf8::encode_scalar(c as u32));
    } else {
        assert(s.push(c).drop_first() =~= s.drop_first().push(c));
        assert(s.push(c)[0] == s[0]);
        lemma_encode_utf8_push(s.drop_first(), c);
        assert(encode_utf8(s.push(c)) =~= encode_utf8(s) + vstd::utf8::encode_scalar(c as u32));
    }
}

/// Encode characters as UTF-8 bytes, proved against the reference
/// encoding of the characters' scalar values.
fn encode_utf8_exec(chars: &Vec<char>) -> (r: Vec<u8>)
    ensures
        r@ == encode_utf8(chars@),
{
    let n = chars.len();
    let mut out: Vec<u8> = Vec::new();
    let mut i: usize = 0;
    proof {
        assert(chars@.take(0) =~= Seq::<char>::empty());
    }
    while i < n
        invariant
            i <= n,
            n == chars@.len(),
            out@ == encode_utf8(chars@.take(i as int)),
        decreases n - i,
    {
        let c = chars[i];
        let u = c as u32;
        proof {
            vstd::utf8::char_is_scalar(c);
            assert(chars@.take(i + 1) =~= chars@.take(i as int).push(c));
            lemma_encode_utf8_push(chars@.take(i as int), c);
        }
        if u < 0x80 {
            out.push((u & 0x7F) as u8);
            proof {
                assert(vstd::utf8::encode_scalar(u) =~= seq![(u & 0x7F) as u8]);
            }
        } else if u < 0x800 {
            out.push(0xC0 | ((u >> 6) & 0x1F) as u8);
            out.push(0x80 | (u & 0x3F) as u8);
            proof {
                assert(vstd::utf8::encode_scalar(u) =~= seq![
                    0xC0 | ((u >> 6) & 0x1F) as u8,
                    0x80 | (u & 0x3F) as u8,
                ]);
            }
        } else if u < 0x10000 {
            out.push(0xE0 | ((u >> 12) & 0x0F) as u8);
            out.push(0x80 | ((u >> 6) & 0x3F) as u8);
            out.push(0x80 | (u & 0x3F) as u8);
            proof {
                assert(vstd::utf8::encode_scalar(u) =~= seq![
                    0xE0 | ((u >> 12) & 0x0F) as u8,
                    0x80 | ((u >> 6) & 0x3F) as u8,
                    0x80 | (u & 0x3F) as u8,
                ]);
            }
        } else {
            out.push(0xF0 | ((u >> 18) & 0x7) as u8);
            out.push(0x80 | ((u >> 12) & 0x3F) as u8);
            out.push(0x80 | ((u >> 6) & 0x3F) as u8);
            out.push(0x80 | (u & 0x3F) as u8);
            proof {
                assert(vstd::utf8::encode_scalar(u) =~= seq![
                    0xF0 | ((u >> 18) & 0x7) as u8,
                    0x80 | ((u >> 12) & 0x3F) as u8,
                    0x80 | ((u >> 6) & 0x3F) as u8,
                    0x80 | (u & 0x3F) as u8,
                ]);
            }
        }
        proof {
            assert(out@ =~= encode_utf8(chars@.take(i + 1)));
        }
        i = i + 1;
    }
    proof {
        assert(chars@.take(n as int) =~= chars@);
    }
    out
}

/// Decode UTF-8 bytes into characters, validating as the reference
/// decoding does: malformed lead or continuation bytes, truncated
/// sequences, overlong forms, surrogates and out-of-range values are all
/// refused.
fn decode_utf8_exec(bytes: &[u8]) -> (r: Result<Vec<char>, ConstructError>)
    ensures
        valid_utf8(bytes@) ==> (r matches Ok(v) && v@ == decode_utf8(bytes@)),
        !valid_utf8(bytes@) ==> r == Err::<Vec<char>, ConstructError>(ConstructError::StringError),
{
    let n = bytes.len();
    let mut out: Vec<char> = Vec::new();
    let mut i: usize = 0;
    proof {
        assert(bytes@.skip(0) =~= bytes@);
        if valid_utf8(bytes@) {
            assert(out@ + decode_utf8(bytes@) =~= decode_utf8(bytes@));
        }
    }
    while i < n
        invariant
            i <= n,
            n == bytes@.len(),
            valid_utf8(bytes@) <==> valid_utf8(bytes@.skip(i as int)),
            valid_utf8(bytes@.skip(i as int)) ==> decode_utf8(bytes@) == out@ + decode_utf8(
                bytes@.skip(i as int),
            ),
        decreases n - i,
    {
        let ghost suffix = bytes@.skip(i as int);
        let b0 = bytes[i];
        proof {
            assert(suffix[0] == bytes@[i as int]);
            if 1 <= suffix.len() {
                assert(suffix[0] == bytes@[i as int]);
            }
        }
        let rem = n - i;
        let width: usize = if b0 < 0x80 {
            1
        } else if b0 < 0xC0 {
            // a continuation byte cannot lead
            return Err(ConstructError::StringError);
        } else if b0 < 0xE0 {
            2
        } else if b0 < 0xF0 {
            3
        } else if b0 < 0xF8 {
            4
        } else {
            return Err(ConstructError::StringError);
        };
        if rem < width {
            return Err(ConstructError::StringError);
        }
        proof {
            if 2 <= suffix.len() {
                assert(suffix[1] == bytes@[i + 1]);
            }
            if 3 <= suffix.len() {
                assert(suffix[2] == bytes@[i + 2]);
            }
            if 4 <= suffix.len() {
                assert(suffix[3] == bytes@[i + 3]);
            }
        }
        let cp: u32 = if width == 1 {
            (b0 & 0x7F) as u32
        } else if width == 2 {
            let b1 = bytes[i + 1];
            if !(0x80 <= b1 && b1 <= 0xBF) {
                return Err(ConstructError::StringError);
            }
            let v = (((b0 & 0x1F) as u32) << 6u32) | ((b1 & 0x3F) as u32);
            if v < 0x80 {
                // overlong two-byte form
                return Err(ConstructError::StringError);
            }
            v
        } else if width == 3 {
            let b1 = bytes[i + 1];
            let b2 = bytes[i + 2];
            if !(0x80 <= b1 && b1 <= 0xBF) || !(0x80 <= b2 && b2 <= 0xBF) {
                return Err(ConstructError::StringError);
            }
            let v = (((b0 & 0x0F) as u32) << 12u32) | (((b1 & 0x3F) as u32) << 6u32) | ((b2
                & 0x3F) as u32);
            if v < 0x800 {
                // overlong three-byte form
                return Err(ConstructError::StringError);
            }
            if 0xD800 <= v && v <= 0xDFFF {
                // a surrogate is no scalar
                return Err(ConstructError::StringError);
            }
            v
        } else {
            let b1 = bytes[i + 1];
            let b2 = bytes[i + 2];
            let b3 = bytes[i + 3];
            if !(0x80 <= b1 && b1 <= 0xBF) || !(0x80 <= b2 && b2 <= 0xBF) || !(0x80 <= b3 && b3
                <= 0xBF) {
                return Err(ConstructError::StringError);
            }
            let v = (((b0 & 0x07) as u32) << 18u32) | (((b1 & 0x3F) as u32) << 12u32) | (((b2
                & 0x3F) as u32) << 6u32) | ((b3 & 0x3F) as u32);
            if !(0x10000 <= v && v <= 0x10FFFF) {
                // overlong or past the last scalar
                return Err(ConstructError::StringError);
            }
            v
        };
        proof {
            if width == 1 {
                let b0x = b0;
                assert(((b0x & 0x7F) as u32) <= 0x7F) by (bit_vector);
            } else if width == 2 {
                let b0x = b0;
                let b1x = bytes@[i + 1];
                assert((((b0x & 0x1F) as u32) << 6u32 | ((b1x & 0x3F) as u32)) <= 0x7FF)
                    by (bit_vector);
            } else if width == 3 {
                let b0x = b0;
                let b1x = bytes@[i + 1];
                let b2x = bytes@[i + 2];
                assert((((b0x & 0x0F) as u32) << 12u32 | (((b1x & 0x3F) as u32) << 6u32) | ((b2x
                    & 0x3F) as u32)) <= 0xFFFF) by (bit_vector);
            }
            assert(vstd::utf8::decode_first_codepoint(suffix) == cp);
            assert(vstd::utf8::length_of_first_codepoint(suffix) == width as int);
            assert(vstd::utf8::valid_first_scalar(suffix));
            assert(vstd::utf8::length_of_first_scalar(suffix) == width as int);
            assert(is_scalar(cp));
        }
        let c = match char_from_u32(cp) {
            Some(c) => c,
            None => {
                proof {
                    assert(false);
                }
                return Err(ConstructError::StringError);
            },
        };
        proof {
            vstd::utf8::char_u32_cast(c, cp);
            assert(vstd::utf8::pop_first_scalar(suffix) =~= bytes@.skip(i + width));
            if valid_utf8(suffix) {
                assert(decode_utf8(suffix) == seq![(cp as char)] + decode_utf8(
                    bytes@.skip(i + width),
                ));
                assert(out@.push(c) + decode_utf8(bytes@.skip(i + width)) =~= out@ + (seq![c]
                    + decode_utf8(bytes@.skip(i + width))));
            }
        }
        out.push(c);
        i = i + width;
    }
    proof {
        assert(bytes@.skip(n as int) =~= Seq::<u8>::empty());
        assert(valid_utf8(Seq::<u8>::empty()));
        assert(decode_utf8(Seq::<u8>::empty()) =~= Seq::<char>::empty());
        assert(out@ + Seq::<char>::empty() =~= out@);
    }
    Ok(out)
}

/// Build a string from characters: they are encoded to UTF-8 by the
/// verified encoder and read back through the byte-to-string boundary.
pub(crate) fn chars_to_string(chars: &Vec<char>) -> (r: String)
    ensures
        r@ == chars@,
{
    let bytes = encode_utf8_exec(chars);
    proof {
        vstd::utf8::encode_utf8_valid_utf8(chars@);
        vstd::utf8::encode_utf8_decode_utf8(chars@);
    }
    match utf8_to_string(bytes.as_slice()) {
        Some(s) => s,
        None => {
            proof {
                assert(false);
            }
            String::new()
        },
    }
}

/// Read a string's characters: its UTF-8 bytes are decoded by the verified
/// decoder.
pub(crate) fn string_to_chars(s: &str) -> (r: Vec<char>)
    ensures
        r@ == s@,
{
    let bytes = s.as_bytes();
    proof {
        vstd::utf8::encode_utf8_valid_utf8(s@);
        vstd::utf8::encode_utf8_decode_utf8(s@);
    }
    match decode_utf8_exec(bytes) {
        Ok(v) => v,
        Err(_) => {
            proof {
                assert(false);
            }
            Vec::new()
        },
    }
}

/// Relies on `char::from_u32`: it answers for exactly the Unicode scalar
/// values, and the character it returns carries the given value.
#[verifier::external_body]
fn char_from_u32(u: u32) -> (r: Option<char>)
    ensures
        r is Some <==> is_scalar(u),
        r matches Some(c) ==> c as u32 == u,
{
    char::from_u32(u)
}

/// True when every character is in the ASCII range.
pub open spec fn ascii_ok_chars(cs: Seq<char>) -> bool {
    forall|i: int| 0 <= i < cs.len() ==> (cs[i] as u32) < 0x80
}

/// The ASCII encoding of an ASCII character sequence: one byte per
/// character.
pub open spec fn ascii_bytes(cs: Seq<char>) -> Seq<u8> {
    Seq::new(cs.len(), |i: int| (cs[i] as u32) as u8)
}

/// True when every byte is in the ASCII range.
pub open spec fn ascii_ok_bytes(bs: Seq<u8>) -> bool {
    forall|i: int| 0 <= i < bs.len() ==> bs[i] < 0x80
}

/// The characters of an ASCII byte sequence, one per byte.
pub open spec fn ascii_chars(bs: Seq<u8>) -> Seq<char> {
    Seq::new(bs.len(), |i: int| bs[i] as char)
}

/// The UTF-16 code units of one character: one unit below 0x10000, else a
/// surrogate pair.
pub open spec fn utf16_unit_of(c: char) -> Seq<u16> {
    let u = c as u32;
    if u < 0x10000 {
        seq![u as u16]
    } else {
        let v = (u - 0x10000) as int;
        seq![(0xD800 + v / 0x400) as u16, (0xDC00 + v % 0x400) as u16]
    }
}

/// The UTF-16 code units of a character sequence.
pub open spec fn utf16_units(cs: Seq<char>) -> Seq<u16>
    decreases cs.len(),
{
    if cs.len() == 0 {
        Seq::empty()
    } else {
        utf16_unit_of(cs[0]) + utf16_units(cs.drop_first())
    }
}

/// One 16-bit unit as two bytes in the given order.
pub open spec fn unit_bytes16(u: u16, little: bool) -> Seq<u8> {
    let hi = ((u as int) / 256) as u8;
    let lo = ((u as int) % 256) as u8;
    if little {
        seq![lo, hi]
    } else {
        seq![hi, lo]
    }
}

/// A unit sequence as bytes in the given order.
pub open spec fn units_bytes16(us: Seq<u16>, little: bool) -> Seq<u8>
    decreases us.len(),
{
    if us.len() == 0 {
        Seq::empty()
    } else {
        unit_bytes16(us[0], little) + units_bytes16(us.drop_first(), little)
    }
}

/// The UTF-16 encoding of a character sequence, without a byte-order mark.
pub open spec fn utf16_bytes(cs: Seq<char>, little: bool) -> Seq<u8> {
    units_bytes16(utf16_units(cs), little)
}

/// The first 16-bit unit of a byte sequence in the given order.
pub open spec fn unit16_at(bs: Seq<u8>, little: bool) -> int {
    if little {
        bs[0] + 256 * bs[1]
    } else {
        256 * bs[0] + bs[1]
    }
}

/// UTF-16 decoding: pairs of bytes become units, high and low surrogates
/// must pair up, and everything else is one character per unit.  Odd
/// lengths, lone surrogates and truncated pairs decode to nothing.
pub open spec fn decode_utf16_bytes(bs: Seq<u8>, little: bool) -> Option<Seq<char>>
    decreases bs.len(),
{
    if bs.len() == 0 {
        Some(Seq::empty())
    } else if bs.len() == 1 {
        None
    } else {
        let u0 = unit16_at(bs, little);
        if 0xD800 <= u0 < 0xDC00 {
            if bs.len() < 4 {
                None
            } else {
                let u1 = unit16_at(bs.skip(2), little);
                if 0xDC00 <= u1 < 0xE000 {
                    let s = 0x10000 + (u0 - 0xD800) * 0x400 + (u1 - 0xDC00);
                    match decode_utf16_bytes(bs.skip(4), little) {
                        Some(rest) => Some(seq![(s as u32) as char] + rest),
                        None => None,
                    }
                } else {
                    None
                }
            }
        } else if 0xDC00 <= u0 < 0xE000 {
            None
        } else {
            match decode_utf16_bytes(bs.skip(2), little) {
                Some(rest) => Some(seq![(u0 as u32) as char] + rest),
                None => None,
            }
        }
    }
}

/// One character as four bytes in the given order.
pub open spec fn unit_bytes32(c: char, little: bool) -> Seq<u8> {
    let u = c as u32 as int;
    let b0 = (u % 256) as u8;
    let b1 = ((u / 256) % 256) as u8;
    let b2 = ((u / 0x1_0000) % 256) as u8;
    let b3 = (u / 0x100_0000) as u8;
    if little {
        seq![b0, b1, b2, b3]
    } else {
        seq![b3, b2, b1, b0]
    }
}

/// The UTF-32 encoding of a character sequence, without a byte-order mark.
pub open spec fn utf32_bytes(cs: Seq<char>, little: bool) -> Seq<u8>
    decreases cs.len(),
{
    if cs.len() == 0 {
        Seq::empty()
    } else {
        unit_bytes32(cs[0], little) + utf32_bytes(cs.drop_first(), little)
    }
}

/// The first 32-bit unit of a byte sequence in the given order.
pub open spec fn unit32_at(bs: Seq<u8>, little: bool) -> int {
    if little {
        bs[0] + 256 * (bs[1] + 256 * (bs[2] + 256 * bs[3]))
    } else {
        bs[3] + 256 * (bs[2] + 256 * (bs[1] + 256 * bs[0]))
    }
}

/// UTF-32 decoding: every four bytes carry one scalar value, which must be
/// a legal Unicode scalar.  Truncated units and non-scalar values decode to
/// nothing.
pub open spec fn decode_utf32_bytes(bs: Seq<u8>, little: bool) -> Option<Seq<char>>
    decreases bs.len(),
{
    if bs.len() == 0 {
        Some(Seq::empty())
    } else if bs.len() < 4 {
        None
    } else {
        let u = unit32_at(bs, little);
        if is_scalar(u as u32) {
            match decode_utf32_bytes(bs.skip(4), little) {
                Some(rest) => Some(seq![(u as u32) as char] + rest),
                None => None,
            }
        } else {
            None
        }
    }
}

/// The two-byte byte-order mark in the given order.
pub open spec fn bom16(little: bool) -> Seq<u8> {
    if little {
        seq![0xFFu8, 0xFEu8]
    } else {
        seq![0xFEu8, 0xFFu8]
    }
}

/// The four-byte byte-order mark in the given order.
pub open spec fn bom32(little: bool) -> Seq<u8> {
    if little {
        seq![0xFFu8, 0xFEu8, 0u8, 0u8]
    } else {
        seq![0u8, 0u8, 0xFEu8, 0xFFu8]
    }
}

/// What encoding a character sequence produces under a resolved encoding:
/// the bytes, or nothing where the characters do not fit the encoding.
pub open spec fn encode_text(cs: Seq<char>, te: TextEncoding) -> Option<Seq<u8>> {
    match te.kind {
        TextKind::Ascii => if ascii_ok_chars(cs) {
            Some(ascii_bytes(cs))
        } else {
            None
        },
        TextKind::Utf8 => Some(encode_utf8(cs)),
        TextKind::Utf16 => Some(
            (if te.bom {
                bom16(te.little)
            } else {
                Seq::empty()
            }) + utf16_bytes(cs, te.little),
        ),
        TextKind::Utf32 => Some(
            (if te.bom {
                bom32(te.little)
            } else {
                Seq::empty()
            }) + utf32_bytes(cs, te.little),
        ),
    }
}

/// What characters a byte sequence decodes to under a resolved encoding:
/// the characters, or nothing where the bytes are invalid.  A marked
/// multi-byte encoding reads a leading byte-order mark of either order and
/// falls back to the platform's order when none is present.
pub open spec fn decode_text(bs: Seq<u8>, te: TextEncoding) -> Option<Seq<char>> {
    match te.kind {
        TextKind::Ascii => if ascii_ok_bytes(bs) {
            Some(ascii_chars(bs))
        } else {
            None
        },
        TextKind::Utf8 => if valid_utf8(bs) {
            Some(decode_utf8(bs))
        } else {
            None
        },
        TextKind::Utf16 => if te.bom {
            if bs.len() >= 2 && bs.subrange(0, 2) == bom16(true) {
                decode_utf16_bytes(bs.skip(2), true)
            } else if bs.len() >= 2 && bs.subrange(0, 2) == bom16(false) {
                decode_utf16_bytes(bs.skip(2), false)
            } else {
                decode_utf16_bytes(bs, te.little)
            }
        } else {
            decode_utf16_bytes(bs, te.little)
        },
        TextKind::Utf32 => if te.bom {
            if bs.len() >= 4 && bs.subrange(0, 4) == bom32(true) {
                decode_utf32_bytes(bs.skip(4), true)
            } else if bs.len() >= 4 && bs.subrange(0, 4) == bom32(false) {
                decode_utf32_bytes(bs.skip(4), false)
            } else {
                decode_utf32_bytes(bs, te.little)
            }
        } else {
            decode_utf32_bytes(bs, te.little)
        },
    }
}

/// Appending a character appends its code units.
pub proof fn lemma_utf16_units_push(s: Seq<char>, c: char)
    ensures
        utf16_units(s.push(c)) == utf16_units(s) + utf16_unit_of(c),
    decreases s.len(),
{
    if s.len() == 0 {
        assert(s.push(c) =~= seq![c]);
        assert((seq![c]).drop_first() =~= Seq::<char>::empty());
        assert(utf16_units(Seq::<char>::empty()) =~= Seq::<u16>::empty());
        assert(utf16_units(s.push(c)) =~= utf16_units(s) + utf16_unit_of(c));
    } else {
        assert(s.push(c).drop_first() =~= s.drop_first().push(c));
        assert(s.push(c)[0] == s[0]);
        lemma_utf16_units_push(s.drop_first(), c);
        assert(utf16_units(s.push(c)) == utf16_unit_of(s[0]) + utf16_units(
            s.drop_first().push(c),
        ));
        assert(utf16_units(s) == utf16_unit_of(s[0]) + utf16_units(s.drop_first()));
        assert(utf16_units(s.push(c)) =~= utf16_units(s) + utf16_unit_of(c));
    }
}

/// Appending a code unit appends its two bytes.
pub proof fn lemma_units_bytes16_push(us: Seq<u16>, u: u16, little: bool)
    ensures
        units_bytes16(us.push(u), little) == units_bytes16(us, little) + unit_bytes16(u, little),
    decreases us.len(),
{
    if us.len() == 0 {
        assert(us.push(u) =~= seq![u]);
        assert((seq![u]).drop_first() =~= Seq::<u16>::empty());
        assert(units_bytes16(Seq::<u16>::empty(), little) =~= Seq::<u8>::empty());
        assert(units_bytes16(us.push(u), little) =~= units_bytes16(us, little) + unit_bytes16(
            u,
            little,
        ));
    } else {
        assert(us.push(u).drop_first() =~= us.drop_first().push(u));
        assert(us.push(u)[0] == us[0]);
        lemma_units_bytes16_push(us.drop_first(), u, little);
        assert(units_bytes16(us.push(u), little) =~= units_bytes16(us, little) + unit_bytes16(
            u,
            little,
        ));
    }
}

/// Appending a character appends its four bytes.
pub proof fn lemma_utf32_bytes_push(s: Seq<char>, c: char, little: bool)
    ensures
        utf32_bytes(s.push(c), little) == utf32_bytes(s, little) + unit_bytes32(c, little),
    decreases s.len(),
{
    if s.len() == 0 {
        assert(s.push(c) =~= seq![c]);
        assert((seq![c]).drop_first() =~= Seq::<char>::empty());
        assert(utf32_bytes(Seq::<char>::empty(), little) =~= Seq::<u8>::empty());
        assert(utf32_bytes(s.push(c), little) =~= utf32_bytes(s, little) + unit_bytes32(
            c,
            little,
        ));
    } else {
        assert(s.push(c).drop_first() =~= s.drop_first().push(c));
        assert(s.push(c)[0] == s[0]);
        lemma_utf32_bytes_push(s.drop_first(), c, little);
        assert(utf32_bytes(s.push(c), little) =~= utf32_bytes(s, little) + unit_bytes32(
            c,
            little,
        ));
    }
}

/// Encode a character sequence as ASCII bytes, or fail on the first
/// character outside the ASCII range.
fn encode_ascii_exec(chars: &Vec<char>) -> (r: Result<Vec<u8>, ConstructError>)
    ensures
        ascii_ok_chars(chars@) ==> (r matches Ok(v) && v@ == ascii_bytes(chars@)),
        !ascii_ok_chars(chars@) ==> r == Err::<Vec<u8>, ConstructError>(
            ConstructError::StringError,
        ),
{
    let n = chars.len();
    let mut out: Vec<u8> = Vec::new();
    let mut i: usize = 0;
    while i < n
        invariant
            i <= n,
            n == chars@.len(),
            out@.len() == i,
            forall|j: int| 0 <= j < i ==> (chars@[j] as u32) < 0x80,
            forall|j: int| 0 <= j < i ==> out@[j] == (chars@[j] as u32) as u8,
        decreases n - i,
    {
        let u = chars[i] as u32;
        if u >= 0x80 {
            return Err(ConstructError::StringError);
        }
        out.push(u as u8);
        i = i + 1;
    }
    proof {
        assert(out@ =~= ascii_bytes(chars@));
    }
    Ok(out)
}

/// Decode ASCII bytes into characters, or fail on the first byte outside
/// the ASCII range.
fn decode_ascii_exec(bytes: &[u8]) -> (r: Result<Vec<char>, ConstructError>)
    ensures
        ascii_ok_bytes(bytes@) ==> (r matches Ok(v) && v@ == ascii_chars(bytes@)),
        !ascii_ok_bytes(bytes@) ==> r == Err::<Vec<char>, ConstructError>(
            ConstructError::StringError,
        ),
{
    let n = bytes.len();
    let mut out: Vec<char> = Vec::new();
    let mut i: usize = 0;
    while i < n
        invariant
            i <= n,
            n == bytes@.len(),
            out@.len() == i,
            forall|j: int| 0 <= j < i ==> bytes@[j] < 0x80,
            forall|j: int| 0 <= j < i ==> out@[j] == bytes@[j] as char,
        decreases n - i,
    {
        let b = bytes[i];
        if b >= 0x80 {
            return Err(ConstructError::StringError);
        }
        out.push(b as char);
        i = i + 1;
    }
    proof {
        assert(out@ =~= ascii_chars(bytes@));
    }
    Ok(out)
}

/// Encode characters as UTF-16 bytes in the given order, without a mark.
fn encode_utf16_exec(chars: &Vec<char>, little: bool) -> (r: Vec<u8>)
    ensures
        r@ == utf16_bytes(chars@, little),
{
    let n = chars.len();
    let mut out: Vec<u8> = Vec::new();
    let mut i: usize = 0;
    proof {
        assert(chars@.take(0) =~= Seq::<char>::empty());
    }
    while i < n
        invariant
            i <= n,
            n == chars@.len(),
            out@ == units_bytes16(utf16_units(chars@.take(i as int)), little),
        decreases n - i,
    {
        let c = chars[i];
        let u = c as u32;
        proof {
            vstd::utf8::char_is_scalar(c);
            assert(chars@.take(i + 1) =~= chars@.take(i as int).push(c));
            lemma_utf16_units_push(chars@.take(i as int), c);
        }
        if u < 0x10000 {
            let unit = u as u16;
            let hi = (unit / 256) as u8;
            let lo = (unit % 256) as u8;
            proof {
                let us = utf16_units(chars@.take(i as int));
                assert(us.push(unit) =~= us + utf16_unit_of(c));
                lemma_units_bytes16_push(us, unit, little);
                assert(unit_bytes16(unit, little) == if little {
                    seq![lo, hi]
                } else {
                    seq![hi, lo]
                });
            }
            if little {
                out.push(lo);
                out.push(hi);
            } else {
                out.push(hi);
                out.push(lo);
            }
            proof {
                assert(out@ =~= units_bytes16(utf16_units(chars@.take(i + 1)), little));
            }
        } else {
            let v = u - 0x10000;
            proof {
                vstd::arithmetic::div_mod::lemma_div_is_ordered(v as int, 0xFFFFF, 0x400);
                vstd::arithmetic::div_mod::lemma_mod_bound(v as int, 0x400);
            }
            let hi_unit = (0xD800 + v / 0x400) as u16;
            let lo_unit = (0xDC00 + v % 0x400) as u16;
            let hi1 = (hi_unit / 256) as u8;
            let lo1 = (hi_unit % 256) as u8;
            let hi2 = (lo_unit / 256) as u8;
            let lo2 = (lo_unit % 256) as u8;
            proof {
                let us = utf16_units(chars@.take(i as int));
                assert(utf16_unit_of(c) == seq![hi_unit, lo_unit]);
                assert(us.push(hi_unit).push(lo_unit) =~= us + utf16_unit_of(c));
                lemma_units_bytes16_push(us, hi_unit, little);
                lemma_units_bytes16_push(us.push(hi_unit), lo_unit, little);
            }
            if little {
                out.push(lo1);
                out.push(hi1);
                out.push(lo2);
                out.push(hi2);
            } else {
                out.push(hi1);
                out.push(lo1);
                out.push(hi2);
                out.push(lo2);
            }
            proof {
                assert(out@ =~= units_bytes16(utf16_units(chars@.take(i + 1)), little));
            }
        }
        i = i + 1;
    }
    proof {
        assert(chars@.take(n as int) =~= chars@);
    }
    out
}

/// Encode characters as UTF-32 bytes in the given order, without a mark.
fn encode_utf32_exec(chars: &Vec<char>, little: bool) -> (r: Vec<u8>)
    ensures
        r@ == utf32_bytes(chars@, little),
{
    let n = chars.len();
    let mut out: Vec<u8> = Vec::new();
    let mut i: usize = 0;
    proof {
        assert(chars@.take(0) =~= Seq::<char>::empty());
    }
    while i < n
        invariant
            i <= n,
            n == chars@.len(),
            out@ == utf32_bytes(chars@.take(i as int), little),
        decreases n - i,
    {
        let c = chars[i];
        let u = c as u32;
        let b0 = (u % 256) as u8;
        let b1 = ((u / 256) % 256) as u8;
        let b2 = ((u / 0x1_0000) % 256) as u8;
        let b3 = (u / 0x100_0000) as u8;
        proof {
            assert(chars@.take(i + 1) =~= chars@.take(i as int).push(c));
            lemma_utf32_bytes_push(chars@.take(i as int), c, little);
            assert(unit_bytes32(c, little) == if little {
                seq![b0, b1, b2, b3]
            } else {
                seq![b3, b2, b1, b0]
            });
        }
        if little {
            out.push(b0);
            out.push(b1);
            out.push(b2);
            out.push(b3);
        } else {
            out.push(b3);
            out.push(b2);
            out.push(b1);
            out.push(b0);
        }
        proof {
            assert(out@ =~= utf32_bytes(chars@.take(i + 1), little));
        }
        i = i + 1;
    }
    proof {
        assert(chars@.take(n as int) =~= chars@);
    }
    out
}

/// Unit sequences encode to bytes one unit after another.
pub proof fn lemma_units_bytes16_concat(a: Seq<u16>, b: Seq<u16>, little: bool)
    ensures
        units_bytes16(a + b, little) == units_bytes16(a, little) + units_bytes16(b, little),
    decreases a.len(),
{
    if a.len() == 0 {
        assert(a + b =~= b);
        assert(units_bytes16(a, little) =~= Seq::<u8>::empty());
        assert(units_bytes16(a, little) + units_bytes16(b, little) =~= units_bytes16(b, little));
    } else {
        assert((a + b)[0] == a[0]);
        assert((a + b).drop_first() =~= a.drop_first() + b);
        lemma_units_bytes16_concat(a.drop_first(), b, little);
        assert(units_bytes16(a + b, little) =~= units_bytes16(a, little) + units_bytes16(
            b,
            little,
        ));
    }
}

/// ASCII text survives the byte round trip: encoding then decoding an
/// all-ASCII character sequence gives the sequence back.
pub proof fn lemma_ascii_roundtrip(cs: Seq<char>)
    requires
        ascii_ok_chars(cs),
    ensures
        ascii_ok_bytes(ascii_bytes(cs)),
        ascii_chars(ascii_bytes(cs)) == cs,
{
    let bs = ascii_bytes(cs);
    assert forall|i: int| 0 <= i < cs.len() implies ascii_chars(bs)[i] == cs[i] by {
        let u = cs[i] as u32;
        vstd::utf8::char_u32_cast(cs[i], u);
        assert(bs[i] == u as u8);
        assert(bs[i] as u32 == u);
        assert(bs[i] as char == cs[i]);
    }
    assert(ascii_chars(bs) =~= cs);
}

/// UTF-16 text survives the byte round trip, in either byte order.
pub proof fn lemma_utf16_roundtrip(cs: Seq<char>, little: bool)
    ensures
        decode_utf16_bytes(utf16_bytes(cs, little), little) == Some(cs),
    decreases cs.len(),
{
    if cs.len() == 0 {
        assert(utf16_units(cs) =~= Seq::<u16>::empty());
        assert(utf16_bytes(cs, little) =~= Seq::<u8>::empty());
        assert(decode_utf16_bytes(utf16_bytes(cs, little), little) == Some(Seq::<char>::empty()));
        assert(cs =~= Seq::<char>::empty());
    } else {
        let c = cs[0];
        let rest = cs.drop_first();
        let u = c as u32;
        vstd::utf8::char_is_scalar(c);
        vstd::utf8::char_u32_cast(c, u);
        lemma_utf16_roundtrip(rest, little);
        let tail = utf16_bytes(rest, little);
        lemma_units_bytes16_concat(utf16_unit_of(c), utf16_units(rest), little);
        let bs = utf16_bytes(cs, little);
        assert(bs == units_bytes16(utf16_unit_of(c), little) + tail);
        if u < 0x10000 {
            let unit = u as u16;
            assert(utf16_unit_of(c) =~= seq![unit]);
            assert((seq![unit]).drop_first() =~= Seq::<u16>::empty());
            assert(units_bytes16(Seq::<u16>::empty(), little) =~= Seq::<u8>::empty());
            assert(units_bytes16(seq![unit], little) =~= unit_bytes16(unit, little));
            let hi = ((unit as int) / 256) as u8;
            let lo = ((unit as int) % 256) as u8;
            vstd::arithmetic::div_mod::lemma_fundamental_div_mod(unit as int, 256);
            vstd::arithmetic::div_mod::lemma_mod_bound(unit as int, 256);
            assert(bs.len() == 2 + tail.len());
            assert(bs[0] == unit_bytes16(unit, little)[0] && bs[1] == unit_bytes16(
                unit,
                little,
            )[1]);
            assert(unit16_at(bs, little) == unit as int);
            assert(!(0xD800 <= u < 0xE000));
            assert(bs.skip(2) =~= tail);
            assert(decode_utf16_bytes(bs, little) == Some(seq![(unit as u32) as char] + rest));
            assert(seq![c] + rest =~= cs);
        } else {
            let v = (u - 0x10000) as int;
            assert(v <= 0xFFFFF);
            assert(0xFFFFFint / 0x400 == 0x3FF && 0xFFFFFint % 0x400 == 0x3FF) by {
                vstd::arithmetic::div_mod::lemma_fundamental_div_mod_converse(
                    0xFFFFF,
                    0x400,
                    0x3FF,
                    0x3FF,
                );
            }
            assert(v / 0x400 <= 0x3FF) by {
                vstd::arithmetic::div_mod::lemma_div_is_ordered(v, 0xFFFFF, 0x400);
            }
            vstd::arithmetic::div_mod::lemma_mod_bound(v, 0x400);
            vstd::arithmetic::div_mod::lemma_fundamental_div_mod(v, 0x400);
            let hi_unit = (0xD800 + v / 0x400) as u16;
            let lo_unit = (0xDC00 + v % 0x400) as u16;
            assert(utf16_unit_of(c) =~= seq![hi_unit, lo_unit]);
            assert((seq![hi_unit, lo_unit]).drop_first() =~= seq![lo_unit]);
            assert((seq![lo_unit]).drop_first() =~= Seq::<u16>::empty());
            assert(units_bytes16(Seq::<u16>::empty(), little) =~= Seq::<u8>::empty());
            assert(units_bytes16(seq![lo_unit], little) =~= unit_bytes16(lo_unit, little));
            assert(units_bytes16(seq![hi_unit, lo_unit], little) =~= unit_bytes16(
                hi_unit,
                little,
            ) + unit_bytes16(lo_unit, little));
            vstd::arithmetic::div_mod::lemma_fundamental_div_mod(hi_unit as int, 256);
            vstd::arithmetic::div_mod::lemma_mod_bound(hi_unit as int, 256);
            vstd::arithmetic::div_mod::lemma_fundamental_div_mod(lo_unit as int, 256);
            vstd::arithmetic::div_mod::lemma_mod_bound(lo_unit as int, 256);
            assert(bs.len() == 4 + tail.len());
            assert(bs[0] == unit_bytes16(hi_unit, little)[0] && bs[1] == unit_bytes16(
                hi_unit,
                little,
            )[1]);
            assert(unit16_at(bs, little) == hi_unit as int);
            assert(bs.skip(2)[0] == bs[2] && bs.skip(2)[1] == bs[3]);
            assert(bs[2] == unit_bytes16(lo_unit, little)[0] && bs[3] == unit_bytes16(
                lo_unit,
                little,
            )[1]);
            assert(unit16_at(bs.skip(2), little) == lo_unit as int);
            assert(0xD800 <= hi_unit < 0xDC00);
            assert(0xDC00 <= lo_unit < 0xE000);
            let s = 0x10000 + (hi_unit - 0xD800) * 0x400 + (lo_unit - 0xDC00);
            assert(s == u as int);
            assert(bs.skip(4) =~= tail);
            assert(decode_utf16_bytes(bs, little) == Some(seq![(s as u32) as char] + rest));
            assert((s as u32) as char == c);
            assert(seq![c] + rest =~= cs);
        }
    }
}

/// UTF-32 text survives the byte round trip, in either byte order.
pub proof fn lemma_utf32_roundtrip(cs: Seq<char>, little: bool)
    ensures
        decode_utf32_bytes(utf32_bytes(cs, little), little) == Some(cs),
    decreases cs.len(),
{
    if cs.len() == 0 {
        assert(utf32_bytes(cs, little) =~= Seq::<u8>::empty());
        assert(cs =~= Seq::<char>::empty());
    } else {
        let c = cs[0];
        let rest = cs.drop_first();
        let u = c as u32 as int;
        vstd::utf8::char_is_scalar(c);
        vstd::utf8::char_u32_cast(c, c as u32);
        lemma_utf32_roundtrip(rest, little);
        let tail = utf32_bytes(rest, little);
        let bs = utf32_bytes(cs, little);
        assert(bs == unit_bytes32(c, little) + tail);
        let d1 = u / 256;
        let d2 = u / 0x1_0000;
        let d3 = u / 0x100_0000;
        vstd::arithmetic::div_mod::lemma_fundamental_div_mod(u, 256);
        vstd::arithmetic::div_mod::lemma_mod_bound(u, 256);
        vstd::arithmetic::div_mod::lemma_div_denominator(u, 256, 256);
        vstd::arithmetic::div_mod::lemma_div_denominator(u, 0x1_0000, 256);
        vstd::arithmetic::div_mod::lemma_fundamental_div_mod(d1, 256);
        vstd::arithmetic::div_mod::lemma_mod_bound(d1, 256);
        vstd::arithmetic::div_mod::lemma_fundamental_div_mod(d2, 256);
        vstd::arithmetic::div_mod::lemma_mod_bound(d2, 256);
        assert(d3 < 256) by {
            vstd::arithmetic::div_mod::lemma_div_is_ordered(u, 0x10FFFF, 0x100_0000);
            vstd::arithmetic::div_mod::lemma_fundamental_div_mod_converse(0x10FFFF, 0x100_0000, 0, 0x10FFFF);
        }
        assert(d3 >= 0) by {
            vstd::arithmetic::div_mod::lemma_div_pos_is_pos(u, 0x100_0000);
        }
        assert(bs.len() == 4 + tail.len());
        assert(bs[0] == unit_bytes32(c, little)[0] && bs[1] == unit_bytes32(c, little)[1] && bs[2]
            == unit_bytes32(c, little)[2] && bs[3] == unit_bytes32(c, little)[3]);
        assert(unit32_at(bs, little) == u) by {
            assert(u == 256 * d1 + u % 256);
            assert(d1 == 256 * d2 + d1 % 256);
            assert(d2 == 256 * d3 + d2 % 256);
        }
        assert(is_scalar(u as u32));
        assert(bs.skip(4) =~= tail);
        assert(decode_utf32_bytes(bs, little) == Some(seq![(u as u32) as char] + rest));
        assert((u as u32) as char == c);
        assert(seq![c] + rest =~= cs);
    }
}

/// The text round trip under every resolved encoding: whatever a string
/// encodes to decodes back to the same string.
pub proof fn lemma_text_roundtrip(cs: Seq<char>, te: TextEncoding)
    ensures
        encode_text(cs, te) matches Some(b) ==> decode_text(b, te) == Some(cs),
{
    match te.kind {
        TextKind::Ascii => {
            if ascii_ok_chars(cs) {
                lemma_ascii_roundtrip(cs);
            }
        },
        TextKind::Utf8 => {
            vstd::utf8::encode_utf8_valid_utf8(cs);
            vstd::utf8::encode_utf8_decode_utf8(cs);
        },
        TextKind::Utf16 => {
            lemma_utf16_roundtrip(cs, te.little);
            let body = utf16_bytes(cs, te.little);
            if te.bom {
                let b = bom16(te.little) + body;
                assert(b.subrange(0, 2) =~= bom16(te.little));
                assert(b.skip(2) =~= body);
                assert(bom16(true)[0] != bom16(false)[0]);
                assert(encode_text(cs, te) == Some(b));
            } else {
                assert(Seq::<u8>::empty() + body =~= body);
            }
        },
        TextKind::Utf32 => {
            lemma_utf32_roundtrip(cs, te.little);
            let body = utf32_bytes(cs, te.little);
            if te.bom {
                let b = bom32(te.little) + body;
                assert(b.subrange(0, 4) =~= bom32(te.little));
                assert(b.skip(4) =~= body);
                assert(bom32(true)[0] != bom32(false)[0]);
                assert(encode_text(cs, te) == Some(b));
            } else {
                assert(Seq::<u8>::empty() + body =~= body);
            }
        },
    }
}

/// Decode UTF-16 bytes in the given order, without a mark.
fn decode_utf16_exec(bytes: &[u8], little: bool) -> (r: Result<Vec<char>, ConstructError>)
    ensures
        decode_utf16_bytes(bytes@, little) matches Some(cs) ==> (r matches Ok(v) && v@ == cs),
        decode_utf16_bytes(bytes@, little) is None ==> r == Err::<Vec<char>, ConstructError>(
            ConstructError::StringError,
        ),
{
    let n = bytes.len();
    let mut out: Vec<char> = Vec::new();
    let mut i: usize = 0;
    proof {
        assert(bytes@.skip(0) =~= bytes@);
        match decode_utf16_bytes(bytes@, little) {
            Some(rest) => {
                assert(out@ + rest =~= rest);
            },
            None => {},
        }
    }
    while i < n
        invariant
            i <= n,
            n == bytes@.len(),
            decode_utf16_bytes(bytes@, little) is Some <==> decode_utf16_bytes(
                bytes@.skip(i as int),
                little,
            ) is Some,
            decode_utf16_bytes(bytes@.skip(i as int), little) matches Some(rest)
                ==> decode_utf16_bytes(bytes@, little) == Some(out@ + rest),
        decreases n - i,
    {
        let ghost suffix = bytes@.skip(i as int);
        if n - i < 2 {
            return Err(ConstructError::StringError);
        }
        let b0 = bytes[i];
        let b1 = bytes[i + 1];
        let u0: u32 = if little {
            (b0 as u32) + 256 * (b1 as u32)
        } else {
            256 * (b0 as u32) + (b1 as u32)
        };
        proof {
            assert(suffix[0] == bytes@[i as int] && suffix[1] == bytes@[i + 1]);
            assert(u0 == unit16_at(suffix, little));
        }
        if 0xD800 <= u0 && u0 < 0xDC00 {
            if n - i < 4 {
                return Err(ConstructError::StringError);
            }
            let b2 = bytes[i + 2];
            let b3 = bytes[i + 3];
            let u1: u32 = if little {
                (b2 as u32) + 256 * (b3 as u32)
            } else {
                256 * (b2 as u32) + (b3 as u32)
            };
            proof {
                assert(suffix.skip(2)[0] == bytes@[i + 2] && suffix.skip(2)[1] == bytes@[i + 3]);
                assert(u1 == unit16_at(suffix.skip(2), little));
            }
            if !(0xDC00 <= u1 && u1 < 0xE000) {
                return Err(ConstructError::StringError);
            }
            let scalar: u32 = 0x10000 + (u0 - 0xD800) * 0x400 + (u1 - 0xDC00);
            let c = match char_from_u32(scalar) {
                Some(c) => c,
                None => {
                    proof {
                        assert(false);
                    }
                    return Err(ConstructError::StringError);
                },
            };
            proof {
                vstd::utf8::char_u32_cast(c, scalar);
                assert(suffix.skip(4) =~= bytes@.skip(i + 4));
                match decode_utf16_bytes(suffix.skip(4), little) {
                    Some(rest) => {
                        assert(decode_utf16_bytes(suffix, little) == Some(seq![c] + rest));
                        assert(out@.push(c) + rest =~= out@ + (seq![c] + rest));
                    },
                    None => {
                        assert(decode_utf16_bytes(suffix, little) is None);
                    },
                }
            }
            out.push(c);
            i = i + 4;
        } else if 0xDC00 <= u0 && u0 < 0xE000 {
            return Err(ConstructError::StringError);
        } else {
            let c = match char_from_u32(u0) {
                Some(c) => c,
                None => {
                    proof {
                        assert(false);
                    }
                    return Err(ConstructError::StringError);
                },
            };
            proof {
                vstd::utf8::char_u32_cast(c, u0);
                assert(suffix.skip(2) =~= bytes@.skip(i + 2));
                match decode_utf16_bytes(suffix.skip(2), little) {
                    Some(rest) => {
                        assert(decode_utf16_bytes(suffix, little) == Some(seq![c] + rest));
                        assert(out@.push(c) + rest =~= out@ + (seq![c] + rest));
                    },
                    None => {
                        assert(decode_utf16_bytes(suffix, little) is None);
                    },
                }
            }
            out.push(c);
            i = i + 2;
        }
    }
    proof {
        assert(bytes@.skip(n as int) =~= Seq::<u8>::empty());
        assert(decode_utf16_bytes(Seq::<u8>::empty(), little) == Some(Seq::<char>::empty()));
        assert(out@ + Seq::<char>::empty() =~= out@);
    }
    Ok(out)
}

/// Decode UTF-32 bytes in the given order, without a mark.
fn decode_utf32_exec(bytes: &[u8], little: bool) -> (r: Result<Vec<char>, ConstructError>)
    ensures
        decode_utf32_bytes(bytes@, little) matches Some(cs) ==> (r matches Ok(v) && v@ == cs),
        decode_utf32_bytes(bytes@, little) is None ==> r == Err::<Vec<char>, ConstructError>(
            ConstructError::StringError,
        ),
{
    let n = bytes.len();
    let mut out: Vec<char> = Vec::new();
    let mut i: usize = 0;
    proof {
        assert(bytes@.skip(0) =~= bytes@);
        match decode_utf32_bytes(bytes@, little) {
            Some(rest) => {
                assert(out@ + rest =~= rest);
            },
            None => {},
        }
    }
    while i < n
        invariant
            i <= n,
            n == bytes@.len(),
            decode_utf32_bytes(bytes@, little) is Some <==> decode_utf32_bytes(
                bytes@.skip(i as int),
                little,
            ) is Some,
            decode_utf32_bytes(bytes@.skip(i as int), little) matches Some(rest)
                ==> decode_utf32_bytes(bytes@, little) == Some(out@ + rest),
        decreases n - i,
    {
        let ghost suffix = bytes@.skip(i as int);
        if n - i < 4 {
            return Err(ConstructError::StringError);
        }
        let b0 = bytes[i];
        let b1 = bytes[i + 1];
        let b2 = bytes[i + 2];
        let b3 = bytes[i + 3];
        let u: u32 = if little {
            (b0 as u32) + 256 * ((b1 as u32) + 256 * ((b2 as u32) + 256 * (b3 as u32)))
        } else {
            (b3 as u32) + 256 * ((b2 as u32) + 256 * ((b1 as u32) + 256 * (b0 as u32)))
        };
        proof {
            assert(suffix[0] == bytes@[i as int] && suffix[1] == bytes@[i + 1] && suffix[2]
                == bytes@[i + 2] && suffix[3] == bytes@[i + 3]);
            assert(u == unit32_at(suffix, little));
        }
        let c = match char_from_u32(u) {
            Some(c) => c,
            None => {
                proof {
                    assert(decode_utf32_bytes(suffix, little) is None);
                }
                return Err(ConstructError::StringError);
            },
        };
        proof {
            vstd::utf8::char_u32_cast(c, u);
            assert(suffix.skip(4) =~= bytes@.skip(i + 4));
            match decode_utf32_bytes(suffix.skip(4), little) {
                Some(rest) => {
                    assert(decode_utf32_bytes(suffix, little) == Some(seq![c] + rest));
                    assert(out@.push(c) + rest =~= out@ + (seq![c] + rest));
                },
                None => {
                    assert(decode_utf32_bytes(suffix, little) is None);
                },
            }
        }
        out.push(c);
        i = i + 4;
    }
    proof {
        assert(bytes@.skip(n as int) =~= Seq::<u8>::empty());
        assert(decode_utf32_bytes(Seq::<u8>::empty(), little) == Some(Seq::<char>::empty()));
        assert(out@ + Seq::<char>::empty() =~= out@);
    }
    Ok(out)
}

/// Encode a string under a resolved encoding: its bytes, or the string
/// error where a character does not fit the encoding.
pub fn encode_string(s: &str, te: TextEncoding) -> (r: Result<Vec<u8>, ConstructError>)
    ensures
        encode_text(s@, te) matches Some(b) ==> (r matches Ok(v) && v@ == b),
        encode_text(s@, te) is None ==> r == Err::<Vec<u8>, ConstructError>(
            ConstructError::StringError,
        ),
{
    match te.kind {
        TextKind::Ascii => {
            let chars = string_to_chars(s);
            encode_ascii_exec(&chars)
        },
        TextKind::Utf8 => Ok(s.as_bytes_vec()),
        TextKind::Utf16 => {
            let chars = string_to_chars(s);
            let body = encode_utf16_exec(&chars, te.little);
            if te.bom {
                let mut out: Vec<u8> = Vec::new();
                if te.little {
                    out.push(0xFF);
                    out.push(0xFE);
                } else {
                    out.push(0xFE);
                    out.push(0xFF);
                }
                let mut k: usize = 0;
                let m = body.len();
                while k < m
                    invariant
                        k <= m,
                        m == body@.len(),
                        out@ == bom16(te.little) + body@.take(k as int),
                    decreases m - k,
                {
                    proof {
                        assert(body@.take(k + 1) =~= body@.take(k as int).push(body@[k as int]));
                        assert(bom16(te.little) + body@.take(k + 1) =~= (bom16(te.little)
                            + body@.take(k as int)).push(body@[k as int]));
                    }
                    out.push(body[k]);
                    k = k + 1;
                }
                proof {
                    assert(body@.take(m as int) =~= body@);
                }
                Ok(out)
            } else {
                proof {
                    assert(Seq::<u8>::empty() + body@ =~= body@);
                }
                Ok(body)
            }
        },
        TextKind::Utf32 => {
            let chars = string_to_chars(s);
            let body = encode_utf32_exec(&chars, te.little);
            if te.bom {
                let mut out: Vec<u8> = Vec::new();
                if te.little {
                    out.push(0xFF);
                    out.push(0xFE);
                    out.push(0);
                    out.push(0);
                } else {
                    out.push(0);
                    out.push(0);
                    out.push(0xFE);
                    out.push(0xFF);
                }
                let mut k: usize = 0;
                let m = body.len();
                while k < m
                    invariant
                        k <= m,
                        m == body@.len(),
                        out@ == bom32(te.little) + body@.take(k as int),
                    decreases m - k,
                {
                    proof {
                        assert(body@.take(k + 1) =~= body@.take(k as int).push(body@[k as int]));
                        assert(bom32(te.little) + body@.take(k + 1) =~= (bom32(te.little)
                            + body@.take(k as int)).push(body@[k as int]));
                    }
                    out.push(body[k]);
                    k = k + 1;
                }
                proof {
                    assert(body@.take(m as int) =~= body@);
                }
                Ok(out)
            } else {
                proof {
                    assert(Seq::<u8>::empty() + body@ =~= body@);
                }
                Ok(body)
            }
        },
    }
}

/// Decode bytes under a resolved encoding: the text, or the string error
/// where the bytes are invalid for it.
pub fn decode_string(bytes: &[u8], te: TextEncoding) -> (r: Result<String, ConstructError>)
    ensures
        decode_text(bytes@, te) matches Some(cs) ==> (r matches Ok(s) && s@ == cs),
        decode_text(bytes@, te) is None ==> r == Err::<String, ConstructError>(
            ConstructError::StringError,
        ),
{
    match te.kind {
        TextKind::Ascii => {
            match decode_ascii_exec(bytes) {
                Ok(chars) => Ok(chars_to_string(&chars)),
                Err(e) => Err(e),
            }
        },
        TextKind::Utf8 => {
            match utf8_to_string(bytes) {
                Some(s) => Ok(s),
                None => Err(ConstructError::StringError),
            }
        },
        TextKind::Utf16 => {
            let n = bytes.len();
            let (rest, little): (&[u8], bool) = if !te.bom {
                (bytes, te.little)
            } else if n >= 2 && bytes[0] == 0xFF && bytes[1] == 0xFE {
                proof {
                    assert(bytes@.subrange(0, 2) =~= bom16(true));
                }
                (slice_subrange(bytes, 2, n), true)
            } else if n >= 2 && bytes[0] == 0xFE && bytes[1] == 0xFF {
                proof {
                    assert(bytes@.subrange(0, 2) =~= bom16(false));
                }
                (slice_subrange(bytes, 2, n), false)
            } else {
                proof {
                    if te.bom && n >= 2 {
                        assert(bytes@.subrange(0, 2) != bom16(true)) by {
                            assert(bytes@.subrange(0, 2)[0] == bytes@[0] && bytes@.subrange(
                                0,
                                2,
                            )[1] == bytes@[1]);
                        }
                        assert(bytes@.subrange(0, 2) != bom16(false)) by {
                            assert(bytes@.subrange(0, 2)[0] == bytes@[0] && bytes@.subrange(
                                0,
                                2,
                            )[1] == bytes@[1]);
                        }
                    }
                }
                (bytes, te.little)
            };
            proof {
                if rest@.len() < bytes@.len() {
                    assert(rest@ =~= bytes@.skip(2));
                }
            }
            match decode_utf16_exec(rest, little) {
                Ok(chars) => Ok(chars_to_string(&chars)),
                Err(e) => Err(e),
            }
        },
        TextKind::Utf32 => {
            let n = bytes.len();
            let (rest, little): (&[u8], bool) = if !te.bom {
                (bytes, te.little)
            } else if n >= 4 && bytes[0] == 0xFF && bytes[1] == 0xFE && bytes[2] == 0 && bytes[3]
                == 0 {
                proof {
                    assert(bytes@.subrange(0, 4) =~= bom32(true));
                }
                (slice_subrange(bytes, 4, n), true)
            } else if n >= 4 && bytes[0] == 0 && bytes[1] == 0 && bytes[2] == 0xFE && bytes[3]
                == 0xFF {
                proof {
                    assert(bytes@.subrange(0, 4) =~= bom32(false));
                }
                (slice_subrange(bytes, 4, n), false)
            } else {
                proof {
                    if te.bom && n >= 4 {
                        assert(bytes@.subrange(0, 4)[0] == bytes@[0] && bytes@.subrange(0, 4)[1]
                            == bytes@[1] && bytes@.subrange(0, 4)[2] == bytes@[2] && bytes@.subrange(
                            0,
                            4,
                        )[3] == bytes@[3]);
                        assert(bytes@.subrange(0, 4) != bom32(true));
                        assert(bytes@.subrange(0, 4) != bom32(false));
                    }
                }
                (bytes, te.little)
            };
            proof {
                if rest@.len() < bytes@.len() {
                    assert(rest@ =~= bytes@.skip(4));
                }
            }
            match decode_utf32_exec(rest, little) {
                Ok(chars) => Ok(chars_to_string(&chars)),
                Err(e) => Err(e),
            }
        },
    }
}

} // verus!
