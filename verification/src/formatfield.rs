//! The fixed hardware-format field: 1-, 2-, 4- and 8-byte integers in a
//! chosen byte order, named by the usual format characters.
//!
//! The floating-point format characters are recognised at construction, so
//! that `sizeof` reports their width, but this codec converts only the
//! integer kinds; float conversion lives outside the verified core.

use vstd::prelude::*;
use vstd::arithmetic::power2::*;
use vstd::slice::slice_to_vec;

use crate::codec::Codec;
use crate::errors::ConstructError;
use crate::integers::bytes_encoding;
use crate::numeric::{
    bytes_value, bytes2integer, fits_bytes, integer2bytes, nat2bytes, swapbytes,
    lemma_bytes_fit_i128, lemma_bytes_unsigned_injective, lemma_bytes_value_mod,
    lemma_bytes_of_fitting_value, lemma_nat2bytes_value,
};
use crate::value::{SpecValue, Value};

verus! {

/// The encoded width of a format character, in bytes; 0 marks an unknown
/// character.
pub open spec fn format_length(f: char) -> nat {
    if f == 'b' || f == 'B' {
        1
    } else if f == 'h' || f == 'H' {
        2
    } else if f == 'l' || f == 'L' || f == 'f' {
        4
    } else if f == 'q' || f == 'Q' || f == 'd' {
        8
    } else {
        0
    }
}

/// True for the signed integer format characters.
pub open spec fn format_signed(f: char) -> bool {
    f == 'b' || f == 'h' || f == 'l' || f == 'q'
}

/// True for the two floating-point format characters.
pub open spec fn format_is_float(f: char) -> bool {
    f == 'f' || f == 'd'
}

/// A fixed-width platform-format field.  `endian` is resolved at
/// construction to `'>'` (big) or `'<'` (little); the platform-native mode
/// picks whichever order the machine uses.
pub struct FormatField {
    /// `'>'` for big-endian, `'<'` for little-endian.
    pub endian: char,
    /// The format character naming kind and width.
    pub format: char,
    /// The fixed width in bytes.
    pub length: usize,
}

impl FormatField {
    /// A format field from an endianness string (`>`, `<` or `=`; the first
    /// character decides, anything else and the empty string mean big) and a
    /// format string (its first character decides, the empty string means
    /// `B`).  An unknown format character is refused.
    pub fn new(endian: &str, format: &str) -> (r: Result<FormatField, ConstructError>)
        ensures
            ({
                let e = if endian@.len() == 0 {
                    '>'
                } else {
                    endian@[0]
                };
                let f = if format@.len() == 0 {
                    'B'
                } else {
                    format@[0]
                };
                if format_length(f) == 0 {
                    r == Err::<FormatField, ConstructError>(ConstructError::FormatFieldError)
                } else {
                    (r matches Ok(c) && c.wf() && c.format == f && c.length == format_length(f)
                        && (e == '<' ==> c.endian == '<') && (e != '<' && e != '=' ==> c.endian
                        == '>'))
                }
            }),
    {
        let e: char = if endian.unicode_len() == 0 {
            '>'
        } else {
            endian.get_char(0)
        };
        let f: char = if format.unicode_len() == 0 {
            'B'
        } else {
            format.get_char(0)
        };
        let length: usize = if f == 'b' || f == 'B' {
            1
        } else if f == 'h' || f == 'H' {
            2
        } else if f == 'l' || f == 'L' || f == 'f' {
            4
        } else if f == 'q' || f == 'Q' || f == 'd' {
            8
        } else {
            return Err(ConstructError::FormatFieldError);
        };
        let resolved: char = if e == '<' {
            '<'
        } else if e == '=' {
            if crate::encodings::platform_is_little() {
                '<'
            } else {
                '>'
            }
        } else {
            '>'
        };
        Ok(FormatField { endian: resolved, format: f, length })
    }
}

impl Codec for FormatField {
    open spec fn wf(&self) -> bool {
        &&& (self.endian == '>' || self.endian == '<')
        &&& self.length == format_length(self.format)
        &&& self.length > 0
    }

    open spec fn spec_parse(&self, data: Seq<u8>) -> Result<SpecValue, ConstructError> {
        if data.len() != self.length {
            Err(ConstructError::StreamError)
        } else if format_is_float(self.format) {
            Err(ConstructError::FormatFieldError)
        } else {
            let eff = if self.endian == '<' {
                data.reverse()
            } else {
                data
            };
            Ok(SpecValue::Int(bytes_value(eff, format_signed(self.format)) as i128))
        }
    }

    open spec fn spec_build(&self, v: SpecValue) -> Result<Seq<u8>, ConstructError> {
        match v {
            SpecValue::Int(n) => {
                if format_is_float(self.format) {
                    Err(ConstructError::FormatFieldError)
                } else if !fits_bytes(n, self.length as nat, format_signed(self.format)) {
                    Err(ConstructError::IntegerError)
                } else {
                    let bytes = bytes_encoding(n, self.length as nat);
                    Ok(
                        if self.endian == '<' {
                            bytes.reverse()
                        } else {
                            bytes
                        },
                    )
                }
            },
            _ => Err(ConstructError::ValidationError),
        }
    }

    open spec fn spec_sizeof(&self) -> Result<usize, ConstructError> {
        Ok(self.length)
    }

    fn parse(&self, data: &[u8]) -> (r: Result<Value, ConstructError>) {
        if data.len() != self.length {
            return Err(ConstructError::StreamError);
        }
        if self.format == 'f' || self.format == 'd' {
            return Err(ConstructError::FormatFieldError);
        }
        let signed = self.format == 'b' || self.format == 'h' || self.format == 'l' || self.format
            == 'q';
        let eff: Vec<u8> = if self.endian == '<' {
            swapbytes(slice_to_vec(data))
        } else {
            slice_to_vec(data)
        };
        proof {
            lemma_bytes_fit_i128(eff@, format_signed(self.format));
        }
        let v = bytes2integer(eff.as_slice(), signed);
        Ok(Value::Int(v))
    }

    fn build(&self, obj: &Value) -> (r: Result<Vec<u8>, ConstructError>) {
        match obj {
            Value::Int(n) => {
                if self.format == 'f' || self.format == 'd' {
                    return Err(ConstructError::FormatFieldError);
                }
                let signed = self.format == 'b' || self.format == 'h' || self.format == 'l'
                    || self.format == 'q';
                proof {
                    lemma_pow2_pos((8 * self.length) as nat);
                    lemma2_to64();
                    lemma2_to64_rest();
                    lemma_pow2_adds(32, 31);
                    lemma_pow2_adds(32, 32);
                }
                let in_range: bool = if signed {
                    if self.length == 1 {
                        -0x80 <= *n && *n < 0x80
                    } else if self.length == 2 {
                        -0x8000 <= *n && *n < 0x8000
                    } else if self.length == 4 {
                        -0x8000_0000 <= *n && *n < 0x8000_0000
                    } else {
                        -0x8000_0000_0000_0000 <= *n && *n < 0x8000_0000_0000_0000
                    }
                } else {
                    if self.length == 1 {
                        0 <= *n && *n < 0x100
                    } else if self.length == 2 {
                        0 <= *n && *n < 0x1_0000
                    } else if self.length == 4 {
                        0 <= *n && *n < 0x1_0000_0000
                    } else {
                        0 <= *n && *n < 0x1_0000_0000_0000_0000
                    }
                };
                if !in_range {
                    return Err(ConstructError::IntegerError);
                }
                let bytes = match integer2bytes(*n, self.length) {
                    Ok(bytes) => bytes,
                    Err(e) => {
                        return Err(e);
                    },
                };
                proof {
                    lemma_nat2bytes_value(
                        (((*n) as int) % (pow2((8 * self.length) as nat) as int)) as nat,
                        self.length as nat,
                    );
                    vstd::arithmetic::div_mod::lemma_mod_twice(
                        (*n) as int,
                        pow2((8 * self.length) as nat) as int,
                    );
                    lemma_bytes_unsigned_injective(bytes@, bytes_encoding(*n, self.length as nat));
                }
                if self.endian == '<' {
                    Ok(swapbytes(bytes))
                } else {
                    Ok(bytes)
                }
            },
            _ => Err(ConstructError::ValidationError),
        }
    }

    fn sizeof(&self) -> (r: Result<usize, ConstructError>) {
        Ok(self.length)
    }
}

/// Value-first round trip for the format field: every integer in the
/// format's range builds to a buffer that parses back to it.
pub proof fn lemma_formatfield_roundtrip_value(c: FormatField, v: i128)
    requires
        c.wf(),
        !format_is_float(c.format),
        fits_bytes(v, c.length as nat, format_signed(c.format)),
    ensures
        (c.spec_build(SpecValue::Int(v)) matches Ok(b) && c.spec_parse(b) == Ok::<
            SpecValue,
            ConstructError,
        >(SpecValue::Int(v))),
{
    let w = c.length as nat;
    let p = pow2(8 * w) as int;
    lemma_pow2_pos(8 * w);
    let m = ((v as int) % p) as nat;
    lemma_nat2bytes_value(m, w);
    vstd::arithmetic::div_mod::lemma_mod_twice(v as int, p);
    let enc = bytes_encoding(v, w);
    lemma_bytes_of_fitting_value(enc, v, format_signed(c.format));
    lemma_bytes_fit_i128(enc, format_signed(c.format));
    if c.endian == '<' {
        assert(enc.reverse().reverse() =~= enc);
    }
}

/// Byte-first round trip for the format field: a buffer of the right width
/// parses to an integer that rebuilds the same buffer.
pub proof fn lemma_formatfield_roundtrip_canonical(c: FormatField, b: Seq<u8>, v: i128)
    requires
        c.wf(),
        c.spec_parse(b) == Ok::<SpecValue, ConstructError>(SpecValue::Int(v)),
    ensures
        c.spec_build(SpecValue::Int(v)) == Ok::<Seq<u8>, ConstructError>(b),
{
    let w = c.length as nat;
    let p = pow2(8 * w) as int;
    lemma_pow2_pos(8 * w);
    let eff = if c.endian == '<' {
        b.reverse()
    } else {
        b
    };
    lemma_bytes_value_mod(eff, format_signed(c.format));
    lemma_bytes_fit_i128(eff, format_signed(c.format));
    assert(v as int == bytes_value(eff, format_signed(c.format)));
    assert(fits_bytes(v, w, format_signed(c.format))) by {
        crate::numeric::lemma_bytes_value_range(eff, format_signed(c.format));
    }
    let m = ((v as int) % p) as nat;
    lemma_nat2bytes_value(m, w);
    vstd::arithmetic::div_mod::lemma_mod_twice(v as int, p);
    let enc = bytes_encoding(v, w);
    lemma_bytes_unsigned_injective(enc, eff);
    if c.endian == '<' {
        assert(eff.reverse() =~= b);
    }
}

/// The format field has a fixed size: `sizeof` always succeeds with the
/// width that the format character fixes.
pub proof fn lemma_formatfield_sizeof_fixed(c: FormatField)
    ensures
        c.spec_sizeof() == Ok::<usize, ConstructError>(c.length),
{
}

} // verus!
