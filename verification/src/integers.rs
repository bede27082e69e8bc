//! The two arbitrary-width integer codecs: bit-granular and byte-granular.

use vstd::prelude::*;
use vstd::arithmetic::power2::*;
use vstd::slice::slice_to_vec;

use crate::codec::Codec;
use crate::errors::ConstructError;
use crate::numeric::{
    bits_value, bytes_value, bits2integer, bytes2integer, fits_bits, fits_bytes, integer2bits,
    integer2bytes, is_bits, nat2bits, nat2bytes, swapbytes, swap_units, swap_units_exec,
    lemma_bits_fit_i128, lemma_bytes_fit_i128, lemma_bits_unsigned_injective,
    lemma_bytes_unsigned_injective, lemma_bits_value_mod, lemma_bytes_value_mod,
    lemma_bits_of_fitting_value, lemma_bytes_of_fitting_value, lemma_nat2bits_value,
    lemma_nat2bytes_value, lemma_swap_units_involution, lemma_swap_units_is_bits,
};
use crate::value::{SpecValue, Value};

verus! {

/// An integer codec over bit strings: each input or output element carries
/// one bit.  `length` counts bits, at most 128; `swapped` reverses the
/// 8-bit-unit order and is defined only for whole-byte widths.
pub struct BitsInteger {
    /// The width in bits.
    pub length: usize,
    /// Two's-complement signed reading and writing.
    pub signed: bool,
    /// Byte-order reversal of the bit string.
    pub swapped: bool,
}

/// The bit string that carries `n` in `width` bits, before any swapping.
pub open spec fn bits_encoding(n: i128, width: nat) -> Seq<u8> {
    nat2bits(((n as int) % (pow2(width) as int)) as nat, width)
}

/// The byte string that carries `n` in `width` bytes, before any swapping.
pub open spec fn bytes_encoding(n: i128, width: nat) -> Seq<u8> {
    nat2bytes(((n as int) % (pow2(8 * width) as int)) as nat, width)
}

impl BitsInteger {
    /// A bit-integer codec; `signed` and `swapped` default to false.
    pub fn new(length: usize, signed: Option<bool>, swapped: Option<bool>) -> (c: BitsInteger)
        ensures
            c.wf(),
            c.length == length,
            c.signed == (signed matches Some(true)),
            c.swapped == (swapped matches Some(true)),
    {
        BitsInteger {
            length,
            signed: matches!(signed, Some(true)),
            swapped: matches!(swapped, Some(true)),
        }
    }
}

impl Codec for BitsInteger {
    open spec fn wf(&self) -> bool {
        true
    }

    open spec fn spec_parse(&self, data: Seq<u8>) -> Result<SpecValue, ConstructError> {
        if data.len() != self.length {
            Err(ConstructError::StreamError)
        } else if self.swapped && self.length % 8 != 0 {
            Err(ConstructError::IntegerError)
        } else if self.length > 128 {
            Err(ConstructError::IntegerError)
        } else {
            let eff = if self.swapped {
                swap_units(data, 8)
            } else {
                data
            };
            let v = bits_value(eff, self.signed);
            if v < i128::MIN || v > i128::MAX {
                Err(ConstructError::IntegerError)
            } else {
                Ok(SpecValue::Int(v as i128))
            }
        }
    }

    open spec fn spec_build(&self, v: SpecValue) -> Result<Seq<u8>, ConstructError> {
        match v {
            SpecValue::Int(n) => {
                if n < 0 && !self.signed {
                    Err(ConstructError::IntegerError)
                } else if self.length > 128 {
                    Err(ConstructError::IntegerError)
                } else if self.swapped && self.length % 8 != 0 {
                    Err(ConstructError::IntegerError)
                } else {
                    let bits = bits_encoding(n, self.length as nat);
                    Ok(
                        if self.swapped {
                            swap_units(bits, 8)
                        } else {
                            bits
                        },
                    )
                }
            },
            _ => Err(ConstructError::ValidationError),
        }
    }

    open spec fn spec_sizeof(&self) -> Result<usize, ConstructError> {
        Ok(self.length)
    }

    fn parse(&self, data: &[u8]) -> (r: Result<Value, ConstructError>) {
        if data.len() != self.length {
            return Err(ConstructError::StreamError);
        }
        if self.swapped && self.length % 8 != 0 {
            return Err(ConstructError::IntegerError);
        }
        if self.length > 128 {
            return Err(ConstructError::IntegerError);
        }
        let eff: Vec<u8> = if self.swapped {
            swap_units_exec(data, 8)
        } else {
            slice_to_vec(data)
        };
        proof {
            lemma_bits_fit_i128(eff@, self.signed);
        }
        if self.length == 128 && !self.signed && eff[0] != 0 {
            return Err(ConstructError::IntegerError);
        }
        let v = bits2integer(eff.as_slice(), self.signed);
        Ok(Value::Int(v))
    }

    fn build(&self, obj: &Value) -> (r: Result<Vec<u8>, ConstructError>) {
        match obj {
            Value::Int(n) => {
                if *n < 0 && !self.signed {
                    return Err(ConstructError::IntegerError);
                }
                if self.length > 128 {
                    return Err(ConstructError::IntegerError);
                }
                if self.swapped && self.length % 8 != 0 {
                    return Err(ConstructError::IntegerError);
                }
                let bits = match integer2bits(*n, self.length) {
                    Ok(bits) => bits,
                    Err(e) => {
                        return Err(e);
                    },
                };
                proof {
                    lemma_nat2bits_value(
                        (((*n) as int) % (pow2(self.length as nat) as int)) as nat,
                        self.length as nat,
                    );
                    lemma_pow2_pos(self.length as nat);
                    vstd::arithmetic::div_mod::lemma_mod_twice(
                        (*n) as int,
                        pow2(self.length as nat) as int,
                    );
                    lemma_bits_unsigned_injective(bits@, bits_encoding(*n, self.length as nat));
                }
                if self.swapped {
                    Ok(swap_units_exec(bits.as_slice(), 8))
                } else {
                    Ok(bits)
                }
            },
            _ => Err(ConstructError::ValidationError),
        }
    }

    fn sizeof(&self) -> (r: Result<usize, ConstructError>) {
        Ok(self.length)
    }
}

/// An integer codec over byte strings.  `length` counts bytes, at most 16;
/// `swapped` reverses the byte order and is defined for every width.
pub struct BytesInteger {
    /// The width in bytes.
    pub length: usize,
    /// Two's-complement signed reading and writing.
    pub signed: bool,
    /// Byte-order reversal.
    pub swapped: bool,
}

impl BytesInteger {
    /// A byte-integer codec; `signed` and `swapped` default to false.
    pub fn new(length: usize, signed: Option<bool>, swapped: Option<bool>) -> (c: BytesInteger)
        ensures
            c.wf(),
            c.length == length,
            c.signed == (signed matches Some(true)),
            c.swapped == (swapped matches Some(true)),
    {
        BytesInteger {
            length,
            signed: matches!(signed, Some(true)),
            swapped: matches!(swapped, Some(true)),
        }
    }
}

impl Codec for BytesInteger {
    open spec fn wf(&self) -> bool {
        true
    }

    open spec fn spec_parse(&self, data: Seq<u8>) -> Result<SpecValue, ConstructError> {
        if data.len() != self.length {
            Err(ConstructError::StreamError)
        } else if self.length > 16 {
            Err(ConstructError::IntegerError)
        } else {
            let eff = if self.swapped {
                data.reverse()
            } else {
                data
            };
            let v = bytes_value(eff, self.signed);
            if v < i128::MIN || v > i128::MAX {
                Err(ConstructError::IntegerError)
            } else {
                Ok(SpecValue::Int(v as i128))
            }
        }
    }

    open spec fn spec_build(&self, v: SpecValue) -> Result<Seq<u8>, ConstructError> {
        match v {
            SpecValue::Int(n) => {
                if n < 0 && !self.signed {
                    Err(ConstructError::IntegerError)
                } else if self.length > 16 {
                    Err(ConstructError::IntegerError)
                } else {
                    let bytes = bytes_encoding(n, self.length as nat);
                    Ok(
                        if self.swapped {
                            bytes.reverse()
                        } else {
                            bytes
                        },
                    )
                }
            },
            _ => Err(ConstructError::ValidationError),
        }
    }

    open spec fn spec_sizeof(&self) -> Result<usize, ConstructError> {
        Ok(self.length)
    }

    fn parse(&self, data: &[u8]) -> (r: Result<Value, ConstructError>) {
        if data.len() != self.length {
            return Err(ConstructError::StreamError);
        }
        if self.length > 16 {
            return Err(ConstructError::IntegerError);
        }
        let eff: Vec<u8> = if self.swapped {
            swapbytes(slice_to_vec(data))
        } else {
            slice_to_vec(data)
        };
        proof {
            lemma_bytes_fit_i128(eff@, self.signed);
        }
        if self.length == 16 && !self.signed && eff[0] >= 0x80 {
            return Err(ConstructError::IntegerError);
        }
        let v = bytes2integer(eff.as_slice(), self.signed);
        Ok(Value::Int(v))
    }

    fn build(&self, obj: &Value) -> (r: Result<Vec<u8>, ConstructError>) {
        match obj {
            Value::Int(n) => {
                if *n < 0 && !self.signed {
                    return Err(ConstructError::IntegerError);
                }
                if self.length > 16 {
                    return Err(ConstructError::IntegerError);
                }
                let bytes = match integer2bytes(*n, self.length) {
                    Ok(bytes) => bytes,
                    Err(e) => {
                        return Err(e);
                    },
                };
                proof {
                    lemma_nat2bytes_value(
                        (((*n) as int) % (pow2((8 * self.length) as nat) as int)) as nat,
                        self.length as nat,
                    );
                    lemma_pow2_pos((8 * self.length) as nat);
                    vstd::arithmetic::div_mod::lemma_mod_twice(
                        (*n) as int,
                        pow2((8 * self.length) as nat) as int,
                    );
                    lemma_bytes_unsigned_injective(bytes@, bytes_encoding(*n, self.length as nat));
                }
                if self.swapped {
                    Ok(swapbytes(bytes))
                } else {
                    Ok(bytes)
                }
            },
            _ => Err(ConstructError::ValidationError),
        }
    }

    fn sizeof(&self) -> (r: Result<usize, ConstructError>) {
        Ok(self.length)
    }
}

/// Value-first round trip for the bit codec: every value that fits the
/// configured width builds to a bit string that parses back to it.
pub proof fn lemma_bitsinteger_roundtrip_value(c: BitsInteger, v: i128)
    requires
        c.length <= 128,
        c.swapped ==> c.length % 8 == 0,
        fits_bits(v, c.length as nat, c.signed),
    ensures
        (c.spec_build(SpecValue::Int(v)) matches Ok(b) && c.spec_parse(b) == Ok::<
            SpecValue,
            ConstructError,
        >(SpecValue::Int(v))),
{
    let w = c.length as nat;
    let p = pow2(w) as int;
    lemma_pow2_pos(w);
    let m = ((v as int) % p) as nat;
    lemma_nat2bits_value(m, w);
    vstd::arithmetic::div_mod::lemma_mod_twice(v as int, p);
    let enc = bits_encoding(v, w);
    lemma_bits_of_fitting_value(enc, v, c.signed);
    if c.swapped {
        lemma_swap_units_is_bits(enc, 8);
        lemma_swap_units_involution(enc, 8);
        assert(swap_units(swap_units(enc, 8), 8) == enc);
    }
}

/// Byte-first round trip for the bit codec: a proper bit string that parses
/// successfully is rebuilt bit for bit.
pub proof fn lemma_bitsinteger_roundtrip_canonical(c: BitsInteger, b: Seq<u8>, v: i128)
    requires
        is_bits(b),
        c.spec_parse(b) == Ok::<SpecValue, ConstructError>(SpecValue::Int(v)),
    ensures
        c.spec_build(SpecValue::Int(v)) == Ok::<Seq<u8>, ConstructError>(b),
{
    let w = c.length as nat;
    let p = pow2(w) as int;
    lemma_pow2_pos(w);
    let eff = if c.swapped {
        swap_units(b, 8)
    } else {
        b
    };
    lemma_bits_value_mod(eff, c.signed);
    let m = ((v as int) % p) as nat;
    lemma_nat2bits_value(m, w);
    vstd::arithmetic::div_mod::lemma_mod_twice(v as int, p);
    if c.swapped {
        lemma_swap_units_is_bits(b, 8);
    }
    let enc = bits_encoding(v, w);
    lemma_bits_unsigned_injective(enc, eff);
    if c.swapped {
        lemma_swap_units_involution(b, 8);
        assert(swap_units(enc, 8) == b);
    }
}

/// A width past 128 bits fails every parse of a matching buffer and every
/// build with the integer-width error, at first use.
pub proof fn lemma_bitsinteger_width_over_max(c: BitsInteger, data: Seq<u8>, v: i128)
    requires
        c.length > 128,
    ensures
        data.len() == c.length ==> c.spec_parse(data) == Err::<SpecValue, ConstructError>(
            ConstructError::IntegerError,
        ),
        c.spec_build(SpecValue::Int(v)) == Err::<Seq<u8>, ConstructError>(
            ConstructError::IntegerError,
        ),
{
}

/// Width zero is a valid degenerate case: the empty bit string and the
/// integer zero convert to one another.
pub proof fn lemma_bitsinteger_width_zero(c: BitsInteger)
    requires
        c.length == 0,
    ensures
        c.spec_parse(Seq::empty()) == Ok::<SpecValue, ConstructError>(SpecValue::Int(0)),
        c.spec_build(SpecValue::Int(0)) == Ok::<Seq<u8>, ConstructError>(Seq::<u8>::empty()),
{
    assert(fits_bits(0, 0, c.signed)) by {
        vstd::arithmetic::power2::lemma_pow2_pos(0);
    }
    lemma_bitsinteger_roundtrip_value(c, 0);
    assert(bits_encoding(0, 0) =~= Seq::<u8>::empty());
    if c.swapped {
        assert(swap_units(Seq::<u8>::empty(), 8) =~= Seq::<u8>::empty());
    }
    assert(c.spec_parse(Seq::empty()) == Ok::<SpecValue, ConstructError>(SpecValue::Int(0)));
}

/// A negative value offered to an unsigned bit codec always fails with the
/// integer error.
pub proof fn lemma_bitsinteger_unsigned_rejects_negative(c: BitsInteger, v: i128)
    requires
        !c.signed,
        v < 0,
    ensures
        c.spec_build(SpecValue::Int(v)) == Err::<Seq<u8>, ConstructError>(
            ConstructError::IntegerError,
        ),
{
}

/// A byte swap on a bit width that is not a whole number of bytes always
/// fails with the integer error, on parse and on build alike.
pub proof fn lemma_bitsinteger_swap_needs_whole_bytes(c: BitsInteger, data: Seq<u8>, v: i128)
    requires
        c.swapped,
        c.length % 8 != 0,
    ensures
        data.len() == c.length ==> c.spec_parse(data) == Err::<SpecValue, ConstructError>(
            ConstructError::IntegerError,
        ),
        c.spec_build(SpecValue::Int(v)) == Err::<Seq<u8>, ConstructError>(
            ConstructError::IntegerError,
        ),
{
}

/// Value-first round trip for the byte codec.
pub proof fn lemma_bytesinteger_roundtrip_value(c: BytesInteger, v: i128)
    requires
        c.length <= 16,
        fits_bytes(v, c.length as nat, c.signed),
    ensures
        (c.spec_build(SpecValue::Int(v)) matches Ok(b) && c.spec_parse(b) == Ok::<
            SpecValue,
            ConstructError,
        >(SpecValue::Int(v))),
{
    let w = c.length as nat;
    let p = pow2(8 * w) as int;
    lemma_pow2_pos(8 * w);
    let m = ((v as int) % p) as nat;
    lemma_nat2bytes_value(m, w);
    vstd::arithmetic::div_mod::lemma_mod_twice(v as int, p);
    let enc = bytes_encoding(v, w);
    lemma_bytes_of_fitting_value(enc, v, c.signed);
    if c.swapped {
        assert(enc.reverse().reverse() =~= enc);
    }
}

/// Byte-first round trip for the byte codec: a buffer that parses
/// successfully is rebuilt byte for byte.
pub proof fn lemma_bytesinteger_roundtrip_canonical(c: BytesInteger, b: Seq<u8>, v: i128)
    requires
        c.spec_parse(b) == Ok::<SpecValue, ConstructError>(SpecValue::Int(v)),
    ensures
        c.spec_build(SpecValue::Int(v)) == Ok::<Seq<u8>, ConstructError>(b),
{
    let w = c.length as nat;
    let p = pow2(8 * w) as int;
    lemma_pow2_pos(8 * w);
    let eff = if c.swapped {
        b.reverse()
    } else {
        b
    };
    lemma_bytes_value_mod(eff, c.signed);
    let m = ((v as int) % p) as nat;
    lemma_nat2bytes_value(m, w);
    vstd::arithmetic::div_mod::lemma_mod_twice(v as int, p);
    let enc = bytes_encoding(v, w);
    lemma_bytes_unsigned_injective(enc, eff);
    if c.swapped {
        assert(eff.reverse() =~= b);
    }
}

/// A width past 16 bytes fails every parse of a matching buffer and every
/// build with the integer-width error.
pub proof fn lemma_bytesinteger_width_over_max(c: BytesInteger, data: Seq<u8>, v: i128)
    requires
        c.length > 16,
    ensures
        data.len() == c.length ==> c.spec_parse(data) == Err::<SpecValue, ConstructError>(
            ConstructError::IntegerError,
        ),
        c.spec_build(SpecValue::Int(v)) == Err::<Seq<u8>, ConstructError>(
            ConstructError::IntegerError,
        ),
{
}

/// A negative value offered to an unsigned byte codec always fails with the
/// integer error.
pub proof fn lemma_bytesinteger_unsigned_rejects_negative(c: BytesInteger, v: i128)
    requires
        !c.signed,
        v < 0,
    ensures
        c.spec_build(SpecValue::Int(v)) == Err::<Seq<u8>, ConstructError>(
            ConstructError::IntegerError,
        ),
{
}

/// Both integer codecs have a fixed size: `sizeof` always succeeds and
/// returns the configured width.
pub proof fn lemma_integer_sizeof_fixed(c: BitsInteger, d: BytesInteger)
    ensures
        c.spec_sizeof() == Ok::<usize, ConstructError>(c.length),
        d.spec_sizeof() == Ok::<usize, ConstructError>(d.length),
{
}

} // verus!
