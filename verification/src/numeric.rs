//! Conversions between integers and their big-endian bit- and byte-string
//! encodings, together with the facts that make the codec round trips exact.
//!
//! A bit string is a sequence of `u8` elements, one per bit, where any
//! non-zero element counts as a set bit.  A byte string is an ordinary byte
//! sequence.  Both are read most-significant first; a signed reading
//! subtracts `2^width` when the leading element is set (two's complement).

use vstd::prelude::*;
use vstd::arithmetic::power2::*;
use vstd::arithmetic::div_mod::*;
use vstd::arithmetic::mul::*;

use crate::errors::ConstructError;

verus! {

/// The numeric weight of one bit element: any non-zero element counts as 1.
pub open spec fn bit_of(b: u8) -> nat {
    if b != 0 {
        1nat
    } else {
        0nat
    }
}

/// True when every element of the sequence is literally 0 or 1.
pub open spec fn is_bits(s: Seq<u8>) -> bool {
    forall|i: int| 0 <= i < s.len() ==> s[i] == 0 || s[i] == 1
}

/// The unsigned value of a big-endian bit string.
pub open spec fn bits_unsigned(s: Seq<u8>) -> nat
    decreases s.len(),
{
    if s.len() == 0 {
        0
    } else {
        bits_unsigned(s.drop_last()) * 2 + bit_of(s.last())
    }
}

/// The value of a big-endian bit string, two's-complement signed when asked:
/// with the leading bit set, the sign bias `2^len` is subtracted.
pub open spec fn bits_value(s: Seq<u8>, signed: bool) -> int {
    if signed && s.len() > 0 && s[0] != 0 {
        bits_unsigned(s) - pow2(s.len())
    } else {
        bits_unsigned(s) as int
    }
}

/// The unsigned value of a big-endian byte string.
pub open spec fn bytes_unsigned(s: Seq<u8>) -> nat
    decreases s.len(),
{
    if s.len() == 0 {
        0
    } else {
        bytes_unsigned(s.drop_last()) * 256 + s.last() as nat
    }
}

/// The value of a big-endian byte string, two's-complement signed when asked:
/// with the high bit of the leading byte set, `2^(8*len)` is subtracted.
pub open spec fn bytes_value(s: Seq<u8>, signed: bool) -> int {
    if signed && s.len() > 0 && s[0] >= 0x80 {
        bytes_unsigned(s) - pow2(8 * s.len())
    } else {
        bytes_unsigned(s) as int
    }
}

/// An unsigned bit-string value is below `2^len`.
pub proof fn lemma_bits_unsigned_bound(s: Seq<u8>)
    ensures
        bits_unsigned(s) < pow2(s.len()),
    decreases s.len(),
{
    if s.len() == 0 {
        assert(pow2(0) == 1) by {
            lemma2_to64();
        }
    } else {
        lemma_bits_unsigned_bound(s.drop_last());
        lemma_pow2_unfold(s.len());
    }
}

/// An unsigned byte-string value is below `2^(8*len)`.
pub proof fn lemma_bytes_unsigned_bound(s: Seq<u8>)
    ensures
        bytes_unsigned(s) < pow2(8 * s.len()),
    decreases s.len(),
{
    if s.len() == 0 {
        assert(pow2(0) == 1) by {
            lemma2_to64();
        }
    } else {
        lemma_bytes_unsigned_bound(s.drop_last());
        lemma_pow2_adds(8 * (s.len() - 1) as nat, 8);
        assert(pow2(8) == 256) by {
            lemma2_to64();
        }
        assert(bytes_unsigned(s.drop_last()) * 256 + 256 <= pow2(8 * (s.len() - 1) as nat) * 256)
            by {
            lemma_mul_inequality(
                bytes_unsigned(s.drop_last()) as int + 1,
                pow2(8 * (s.len() - 1) as nat) as int,
                256,
            );
            lemma_mul_is_distributive_add_other_way(
                256,
                bytes_unsigned(s.drop_last()) as int,
                1,
            );
        }
    }
}

/// Prepending an element contributes its weight at the most significant place.
pub proof fn lemma_bits_unsigned_prepend(b: u8, s: Seq<u8>)
    ensures
        bits_unsigned(seq![b] + s) == bit_of(b) * pow2(s.len()) + bits_unsigned(s),
    decreases s.len(),
{
    if s.len() == 0 {
        assert(seq![b] + s =~= seq![b]);
        assert((seq![b]).drop_last() =~= Seq::<u8>::empty());
        assert(bits_unsigned(Seq::<u8>::empty()) == 0);
        assert(pow2(0) == 1) by {
            lemma2_to64();
        }
    } else {
        assert((seq![b] + s).drop_last() =~= seq![b] + s.drop_last());
        assert((seq![b] + s).last() == s.last());
        lemma_bits_unsigned_prepend(b, s.drop_last());
        lemma_pow2_unfold(s.len());
        lemma_mul_is_associative(bit_of(b) as int, pow2((s.len() - 1) as nat) as int, 2);
        lemma_mul_is_distributive_add_other_way(
            2,
            bit_of(b) * pow2((s.len() - 1) as nat) as int,
            bits_unsigned(s.drop_last()) as int,
        );
    }
}

/// Prepending a byte contributes its value at the most significant place.
#[verifier::spinoff_prover]
pub proof fn lemma_bytes_unsigned_prepend(b: u8, s: Seq<u8>)
    ensures
        bytes_unsigned(seq![b] + s) == b * pow2(8 * s.len()) + bytes_unsigned(s),
    decreases s.len(),
{
    if s.len() == 0 {
        assert(seq![b] + s =~= seq![b]);
        assert((seq![b]).drop_last() =~= Seq::<u8>::empty());
        assert(bytes_unsigned(Seq::<u8>::empty()) == 0);
        assert(pow2(0) == 1) by {
            lemma2_to64();
        }
        assert(bytes_unsigned(seq![b]) == b as nat);
        lemma_mul_basics(b as int);
        assert(bytes_unsigned(seq![b] + s) == b * pow2(8 * s.len()) + bytes_unsigned(s));
    } else {
        assert((seq![b] + s).drop_last() =~= seq![b] + s.drop_last());
        assert((seq![b] + s).last() == s.last());
        lemma_bytes_unsigned_prepend(b, s.drop_last());
        let p = pow2(8 * (s.len() - 1) as nat) as int;
        let bu = bytes_unsigned(s.drop_last()) as int;
        lemma_pow2_adds(8 * (s.len() - 1) as nat, 8);
        assert(pow2(8) == 256) by {
            lemma2_to64();
        }
        assert(pow2(8 * s.len()) == p * 256);
        assert(bytes_unsigned(seq![b] + s) as int == ((b as int) * p + bu) * 256 + s.last() as int)
            by {
            assert(bytes_unsigned(seq![b] + s) == bytes_unsigned(seq![b] + s.drop_last()) * 256
                + s.last() as nat);
        }
        assert(((b as int) * p + bu) * 256 == (b as int) * p * 256 + bu * 256) by {
            lemma_mul_is_distributive_add_other_way(256, (b as int) * p, bu);
        }
        assert((b as int) * p * 256 == (b as int) * (p * 256)) by {
            lemma_mul_is_associative(b as int, p, 256);
        }
        assert(bytes_unsigned(s) as int == bu * 256 + s.last() as int);
        assert(bytes_unsigned(seq![b] + s) as int == (b as int) * (pow2(8 * s.len()) as int)
            + bytes_unsigned(s) as int);
        assert(bytes_unsigned(seq![b] + s) == b * pow2(8 * s.len()) + bytes_unsigned(s));
    }
}

/// Splitting off the most significant bit: the leading element carries weight
/// `2^(len-1)` and the remainder stays below that weight.
pub proof fn lemma_bits_unsigned_msb(s: Seq<u8>)
    requires
        s.len() > 0,
    ensures
        bits_unsigned(s) == bit_of(s[0]) * pow2((s.len() - 1) as nat) + bits_unsigned(
            s.drop_first(),
        ),
        bits_unsigned(s.drop_first()) < pow2((s.len() - 1) as nat),
{
    assert(s =~= seq![s[0]] + s.drop_first());
    lemma_bits_unsigned_prepend(s[0], s.drop_first());
    lemma_bits_unsigned_bound(s.drop_first());
}

/// Splitting off the most significant byte.
pub proof fn lemma_bytes_unsigned_msb(s: Seq<u8>)
    requires
        s.len() > 0,
    ensures
        bytes_unsigned(s) == s[0] * pow2(8 * (s.len() - 1) as nat) + bytes_unsigned(
            s.drop_first(),
        ),
        bytes_unsigned(s.drop_first()) < pow2(8 * (s.len() - 1) as nat),
{
    assert(s =~= seq![s[0]] + s.drop_first());
    lemma_bytes_unsigned_prepend(s[0], s.drop_first());
    lemma_bytes_unsigned_bound(s.drop_first());
}

/// Two bit strings of one length with one value are the same string.
pub proof fn lemma_bits_unsigned_injective(a: Seq<u8>, b: Seq<u8>)
    requires
        is_bits(a),
        is_bits(b),
        a.len() == b.len(),
        bits_unsigned(a) == bits_unsigned(b),
    ensures
        a =~= b,
    decreases a.len(),
{
    if a.len() > 0 {
        let v = bits_unsigned(a) as int;
        assert(bit_of(a.last()) == a.last() && bit_of(b.last()) == b.last());
        lemma_fundamental_div_mod_converse(
            v,
            2,
            bits_unsigned(a.drop_last()) as int,
            bit_of(a.last()) as int,
        );
        lemma_fundamental_div_mod_converse(
            v,
            2,
            bits_unsigned(b.drop_last()) as int,
            bit_of(b.last()) as int,
        );
        lemma_bits_unsigned_injective(a.drop_last(), b.drop_last());
        assert(a =~= a.drop_last().push(a.last()));
        assert(b =~= b.drop_last().push(b.last()));
    }
}

/// Two byte strings of one length with one value are the same string.
pub proof fn lemma_bytes_unsigned_injective(a: Seq<u8>, b: Seq<u8>)
    requires
        a.len() == b.len(),
        bytes_unsigned(a) == bytes_unsigned(b),
    ensures
        a =~= b,
    decreases a.len(),
{
    if a.len() > 0 {
        let v = bytes_unsigned(a) as int;
        lemma_fundamental_div_mod_converse(
            v,
            256,
            bytes_unsigned(a.drop_last()) as int,
            a.last() as int,
        );
        lemma_fundamental_div_mod_converse(
            v,
            256,
            bytes_unsigned(b.drop_last()) as int,
            b.last() as int,
        );
        lemma_bytes_unsigned_injective(a.drop_last(), b.drop_last());
        assert(a =~= a.drop_last().push(a.last()));
        assert(b =~= b.drop_last().push(b.last()));
    }
}

/// `2^127` and `2^128` as proved numerals; the latter is the modulus of the
/// 128-bit transport integer.
pub proof fn lemma_pow2_128()
    ensures
        pow2(128) == 0x1_0000_0000_0000_0000_0000_0000_0000_0000,
        pow2(127) == 0x8000_0000_0000_0000_0000_0000_0000_0000,
{
    lemma2_to64();
    lemma2_to64_rest();
    lemma_pow2_adds(64, 64);
    lemma_pow2_adds(64, 63);
}

/// `2^e` for exponents below 128, computed by repeated doubling.
fn pow2_u128(e: usize) -> (r: u128)
    requires
        e < 128,
    ensures
        r == pow2(e as nat),
{
    let mut r: u128 = 1;
    let mut i: usize = 0;
    proof {
        lemma2_to64();
    }
    while i < e
        invariant
            i <= e < 128,
            r == pow2(i as nat),
        decreases e - i,
    {
        proof {
            lemma_pow2_unfold((i + 1) as nat);
            lemma_pow2_strictly_increases((i + 1) as nat, 128);
            lemma_pow2_128();
        }
        r = r * 2;
        i = i + 1;
    }
    r
}

/// Reverse the order of the elements of a byte string.
pub fn swapbytes(data: Vec<u8>) -> (r: Vec<u8>)
    ensures
        r@ == data@.reverse(),
{
    let len = data.len();
    let mut out: Vec<u8> = Vec::new();
    let mut i: usize = 0;
    while i < len
        invariant
            i <= len == data@.len(),
            out@.len() == i,
            forall|j: int| 0 <= j < i ==> out@[j] == data@[len - 1 - j],
        decreases len - i,
    {
        out.push(data[len - 1 - i]);
        i = i + 1;
    }
    proof {
        assert(out@ =~= data@.reverse());
    }
    out
}

/// `number mod 2^width`, the unbiased magnitude that a `width`-wide
/// two's-complement encoding carries.
fn mod_pow2_u128(number: i128, width: usize) -> (r: u128)
    requires
        width <= 128,
    ensures
        r as int == (number as int) % (pow2(width as nat) as int),
{
    proof {
        lemma_pow2_128();
        lemma_pow2_pos(width as nat);
    }
    if width == 0 {
        proof {
            lemma2_to64();
            assert((number as int) % 1int == 0) by {
                lemma_mod_multiples_vanish(number as int, 0, 1);
                lemma_small_mod(0, 1);
            }
        }
        0
    } else if number >= 0 {
        let n = number as u128;
        if width == 128 {
            proof {
                lemma_small_mod(n as nat, pow2(128));
            }
            n
        } else {
            let p = pow2_u128(width);
            proof {
                lemma_mod_bound(n as int, p as int);
            }
            n % p
        }
    } else {
        // the magnitude -number, reached without overflowing at i128::MIN
        let m: u128 = ((-(number + 1)) as u128) + 1;
        assert(m as int == -(number as int));
        if width == 128 {
            let r = (u128::MAX - m) + 1;
            proof {
                let p = pow2(128) as int;
                lemma_mod_multiples_vanish(1, number as int, p);
                lemma_small_mod(r as nat, pow2(128));
                assert(number as int + p == r as int);
            }
            r
        } else {
            let p = pow2_u128(width);
            let rm = m % p;
            proof {
                let pi = p as int;
                let q = (m as int) / pi;
                lemma_fundamental_div_mod(m as int, pi);
                lemma_mul_is_commutative(pi, q);
                // number == -m == pi * (-q) + (-rm)
                assert(number as int == pi * (-q) + (-(rm as int))) by {
                    lemma_mul_is_distributive_sub_other_way(pi, 0, q);
                }
                lemma_mod_multiples_vanish(-q, -(rm as int), pi);
                if rm == 0 {
                    lemma_small_mod(0, p as nat);
                } else {
                    lemma_mod_multiples_vanish(1, -(rm as int), pi);
                    lemma_small_mod((pi - rm) as nat, p as nat);
                }
            }
            if rm == 0 {
                0
            } else {
                p - rm
            }
        }
    }
}

/// Convert an integer into a big-endian bit string of exactly `width`
/// elements, each 0 or 1.  Values outside the width keep only their low
/// `width` bits, as a two's-complement encoding does; widths past 128 bits
/// are refused.
pub fn integer2bits(number: i128, width: usize) -> (r: Result<Vec<u8>, ConstructError>)
    ensures
        width > 128 ==> r == Err::<Vec<u8>, ConstructError>(ConstructError::IntegerError),
        width <= 128 ==> (r matches Ok(bits) && bits@.len() == width && is_bits(bits@)
            && bits_unsigned(bits@) == (number as int) % (pow2(width as nat) as int)),
{
    if width > 128 {
        return Err(ConstructError::IntegerError);
    }
    let v = mod_pow2_u128(number, width);
    proof {
        lemma_pow2_pos(width as nat);
        lemma_mod_bound(number as int, pow2(width as nat) as int);
    }
    let mut digits: Vec<u8> = Vec::new();
    let mut x = v;
    let mut k: usize = 0;
    proof {
        lemma2_to64();
        assert(digits@.reverse() =~= Seq::<u8>::empty());
        assert((v as int) / 1int == v as int) by {
            lemma_div_basics(v as int);
        }
        assert((v as int) % 1int == 0) by {
            lemma_mod_multiples_vanish(v as int, 0, 1);
            lemma_small_mod(0, 1);
        }
    }
    while k < width
        invariant
            k <= width <= 128,
            v < pow2(width as nat),
            x as int == (v as int) / (pow2(k as nat) as int),
            digits@.len() == k,
            is_bits(digits@),
            bits_unsigned(digits@.reverse()) as int == (v as int) % (pow2(k as nat) as int),
        decreases width - k,
    {
        let d = (x % 2) as u8;
        proof {
            let pk = pow2(k as nat) as int;
            let pk1 = pow2((k + 1) as nat) as int;
            lemma_pow2_pos(k as nat);
            lemma_pow2_unfold((k + 1) as nat);
            lemma_mod_breakdown(v as int, pk, 2);
            lemma_div_denominator(v as int, pk, 2);
            assert(digits@.push(d).reverse() =~= seq![d] + digits@.reverse());
            lemma_bits_unsigned_prepend(d, digits@.reverse());
            lemma_mod_bound(v as int, pk);
            assert(bit_of(d) == d as nat);
            assert(d as int == ((v as int) / pk) % 2);
            assert(bits_unsigned(digits@.push(d).reverse()) as int == (d as int) * pk + (
            v as int) % pk);
            assert((v as int) % (pk * 2) == pk * (((v as int) / pk) % 2) + (v as int) % pk);
            assert(pk * 2 == pk1);
            assert(bits_unsigned(digits@.push(d).reverse()) as int == (v as int) % pk1);
        }
        digits.push(d);
        x = x / 2;
        k = k + 1;
    }
    proof {
        lemma_small_mod(v as nat, pow2(width as nat));
    }
    Ok(swapbytes(digits))
}

/// Convert an integer into a big-endian byte string of exactly `width`
/// bytes.  Values outside the width keep only their low `8*width` bits, as a
/// two's-complement encoding does; widths past 16 bytes are refused.
pub fn integer2bytes(number: i128, width: usize) -> (r: Result<Vec<u8>, ConstructError>)
    ensures
        width > 16 ==> r == Err::<Vec<u8>, ConstructError>(ConstructError::IntegerError),
        width <= 16 ==> (r matches Ok(bytes) && bytes@.len() == width && bytes_unsigned(bytes@)
            as int == (number as int) % (pow2((8 * width) as nat) as int)),
{
    if width > 16 {
        return Err(ConstructError::IntegerError);
    }
    let v = mod_pow2_u128(number, 8 * width);
    proof {
        lemma_pow2_pos((8 * width) as nat);
        lemma_mod_bound(number as int, pow2((8 * width) as nat) as int);
    }
    let mut digits: Vec<u8> = Vec::new();
    let mut x = v;
    let mut k: usize = 0;
    proof {
        lemma2_to64();
        assert(digits@.reverse() =~= Seq::<u8>::empty());
        assert((v as int) / 1int == v as int) by {
            lemma_div_basics(v as int);
        }
        assert((v as int) % 1int == 0) by {
            lemma_mod_multiples_vanish(v as int, 0, 1);
            lemma_small_mod(0, 1);
        }
    }
    while k < width
        invariant
            k <= width <= 16,
            v < pow2((8 * width) as nat),
            x as int == (v as int) / (pow2((8 * k) as nat) as int),
            digits@.len() == k,
            bytes_unsigned(digits@.reverse()) as int == (v as int) % (pow2((8 * k) as nat) as int),
        decreases width - k,
    {
        let d = (x % 256) as u8;
        proof {
            let pk = pow2((8 * k) as nat) as int;
            lemma_pow2_pos((8 * k) as nat);
            lemma_pow2_adds((8 * k) as nat, 8);
            lemma2_to64();
            lemma_mod_breakdown(v as int, pk, 256);
            lemma_div_denominator(v as int, pk, 256);
            assert(digits@.push(d).reverse() =~= seq![d] + digits@.reverse());
            lemma_bytes_unsigned_prepend(d, digits@.reverse());
            lemma_mod_bound(v as int, pk);
            let pk1 = pow2((8 * (k + 1)) as nat) as int;
            assert(pow2((8 * (k + 1)) as nat) == pow2((8 * k + 8) as nat));
            assert(d as int == ((v as int) / pk) % 256);
            assert(bytes_unsigned(digits@.push(d).reverse()) as int == (d as int) * pk + (
            v as int) % pk);
            assert((v as int) % (pk * 256) == pk * (((v as int) / pk) % 256) + (v as int) % pk);
            assert(pk * 256 == pk1);
            assert(bytes_unsigned(digits@.push(d).reverse()) as int == (v as int) % pk1);
        }
        digits.push(d);
        x = x / 256;
        k = k + 1;
    }
    proof {
        lemma_small_mod(v as nat, pow2((8 * width) as nat));
    }
    Ok(swapbytes(digits))
}

/// Read a big-endian bit string as an integer, two's-complement signed when
/// asked.  The value must fit the 128-bit transport integer.
pub fn bits2integer(data: &[u8], signed: bool) -> (r: i128)
    requires
        data@.len() <= 128,
        i128::MIN <= bits_value(data@, signed) <= i128::MAX,
    ensures
        r == bits_value(data@, signed),
{
    let len = data.len();
    let mut acc: u128 = 0;
    let mut i: usize = 0;
    proof {
        assert(data@.subrange(0, 0) =~= Seq::<u8>::empty());
    }
    while i < len
        invariant
            i <= len == data@.len() <= 128,
            acc == bits_unsigned(data@.subrange(0, i as int)),
        decreases len - i,
    {
        proof {
            let pre = data@.subrange(0, i as int);
            lemma_bits_unsigned_bound(pre);
            lemma_pow2_unfold((i + 1) as nat);
            if i + 1 < 128 {
                lemma_pow2_strictly_increases((i + 1) as nat, 128);
            }
            lemma_pow2_128();
            assert(data@.subrange(0, i + 1).drop_last() =~= pre);
        }
        let b = data[i];
        acc = acc * 2 + (if b != 0 { 1 } else { 0 });
        i = i + 1;
    }
    proof {
        assert(data@.subrange(0, len as int) =~= data@);
        lemma_bits_unsigned_bound(data@);
        lemma_pow2_128();
    }
    if signed && len > 0 && data[0] != 0 {
        proof {
            lemma_bits_unsigned_msb(data@);
            if len < 128 {
                lemma_pow2_strictly_increases((len - 1) as nat, 127);
            }
        }
        if len < 128 {
            let p = pow2_u128(len);
            let diff = p - acc;
            (0 - ((diff - 1) as i128)) - 1
        } else {
            let diff_minus_1 = u128::MAX - acc;
            (0 - (diff_minus_1 as i128)) - 1
        }
    } else {
        acc as i128
    }
}

/// Read a big-endian byte string as an integer, two's-complement signed when
/// asked.  The value must fit the 128-bit transport integer.
pub fn bytes2integer(data: &[u8], signed: bool) -> (r: i128)
    requires
        data@.len() <= 16,
        i128::MIN <= bytes_value(data@, signed) <= i128::MAX,
    ensures
        r == bytes_value(data@, signed),
{
    let len = data.len();
    let mut acc: u128 = 0;
    let mut i: usize = 0;
    proof {
        assert(data@.subrange(0, 0) =~= Seq::<u8>::empty());
    }
    while i < len
        invariant
            i <= len == data@.len() <= 16,
            acc == bytes_unsigned(data@.subrange(0, i as int)),
        decreases len - i,
    {
        proof {
            let pre = data@.subrange(0, i as int);
            lemma_bytes_unsigned_bound(pre);
            lemma_pow2_adds((8 * i) as nat, 8);
            lemma2_to64();
            if 8 * i + 8 < 128 {
                lemma_pow2_strictly_increases((8 * i + 8) as nat, 128);
            }
            lemma_pow2_128();
            assert(acc * 256 + 256 <= pow2((8 * i) as nat) * 256) by {
                lemma_mul_inequality(acc as int + 1, pow2((8 * i) as nat) as int, 256);
                lemma_mul_is_distributive_add_other_way(256, acc as int, 1);
            }
            assert(data@.subrange(0, i + 1).drop_last() =~= pre);
        }
        let b = data[i];
        acc = acc * 256 + (b as u128);
        i = i + 1;
    }
    proof {
        assert(data@.subrange(0, len as int) =~= data@);
        lemma_bytes_unsigned_bound(data@);
        lemma_pow2_128();
    }
    if signed && len > 0 && data[0] >= 0x80 {
        proof {
            lemma_bytes_unsigned_msb(data@);
            if len < 16 {
                lemma_pow2_strictly_increases((8 * len) as nat, 128);
            }
            assert(data@[0] * pow2((8 * (len - 1)) as nat) >= 0x80 * pow2(
                (8 * (len - 1)) as nat,
            )) by {
                lemma_mul_inequality(0x80, data@[0] as int, pow2((8 * (len - 1)) as nat) as int);
            }
            if len == 16 {
                lemma_pow2_adds(7, 120);
                lemma2_to64();
                lemma2_to64_rest();
            }
        }
        if len < 16 {
            let p = pow2_u128(8 * len);
            let diff = p - acc;
            (0 - ((diff - 1) as i128)) - 1
        } else {
            let diff_minus_1 = u128::MAX - acc;
            (0 - (diff_minus_1 as i128)) - 1
        }
    } else {
        acc as i128
    }
}

/// True when `v` lies in the range that a `width`-bit encoding represents:
/// `[0, 2^width)` unsigned, `[-2^(width-1), 2^(width-1))` signed.
pub open spec fn fits_bits(v: i128, width: nat, signed: bool) -> bool {
    if signed {
        if width == 0 {
            v == 0
        } else {
            -(pow2((width - 1) as nat) as int) <= v as int && (v as int) < pow2(
                (width - 1) as nat,
            ) as int
        }
    } else {
        0 <= v as int && (v as int) < pow2(width) as int
    }
}

/// True when `v` lies in the range that a `width`-byte encoding represents.
pub open spec fn fits_bytes(v: i128, width: nat, signed: bool) -> bool {
    fits_bits(v, 8 * width, signed)
}

/// A bit string whose unsigned value is `v mod 2^width` reads back as exactly
/// `v` whenever `v` fits the width: the value-first round trip for bit
/// strings.
pub proof fn lemma_bits_of_fitting_value(bits: Seq<u8>, v: i128, signed: bool)
    requires
        bits.len() <= 128,
        bits_unsigned(bits) as int == (v as int) % (pow2(bits.len()) as int),
        fits_bits(v, bits.len(), signed),
    ensures
        bits_value(bits, signed) == v as int,
{
    let w = bits.len();
    let p = pow2(w) as int;
    lemma_pow2_pos(w);
    if !signed {
        lemma_small_mod(v as nat, pow2(w));
    } else {
        if w == 0 {
            lemma_small_mod(0, pow2(0));
            assert(pow2(0) == 1) by {
                lemma2_to64();
            }
        } else {
            lemma_pow2_unfold(w);
            let ph = pow2((w - 1) as nat) as int;
            lemma_bits_unsigned_msb(bits);
            if v as int >= 0 {
                lemma_pow2_strictly_increases((w - 1) as nat, w);
                lemma_small_mod(v as nat, pow2(w));
                assert(bits[0] == 0) by {
                    if bits[0] != 0 {
                        assert(bit_of(bits[0]) == 1);
                        assert(bits_unsigned(bits) >= 1 * pow2((w - 1) as nat));
                    }
                }
            } else {
                lemma_mod_multiples_vanish(1, v as int, p);
                lemma_small_mod((v as int + p) as nat, pow2(w));
                assert(bits_unsigned(bits) as int == v as int + p);
                assert(bits[0] != 0);
            }
        }
    }
}

/// A byte string whose unsigned value is `v mod 2^(8*width)` reads back as
/// exactly `v` whenever `v` fits the width: the value-first round trip for
/// byte strings.
pub proof fn lemma_bytes_of_fitting_value(bytes: Seq<u8>, v: i128, signed: bool)
    requires
        bytes.len() <= 16,
        bytes_unsigned(bytes) as int == (v as int) % (pow2(8 * bytes.len()) as int),
        fits_bytes(v, bytes.len(), signed),
    ensures
        bytes_value(bytes, signed) == v as int,
{
    let w = bytes.len();
    let p = pow2(8 * w) as int;
    lemma_pow2_pos(8 * w);
    if !signed {
        lemma_small_mod(v as nat, pow2(8 * w));
    } else {
        if w == 0 {
            lemma_small_mod(0, pow2(0));
            assert(pow2(0) == 1) by {
                lemma2_to64();
            }
        } else {
            let pb = pow2((8 * (w - 1)) as nat) as int;
            let ph = pow2((8 * w - 1) as nat) as int;
            lemma_bytes_unsigned_msb(bytes);
            assert(pow2(7) == 0x80) by {
                lemma2_to64();
            }
            lemma_pow2_adds(7, (8 * (w - 1)) as nat);
            assert(0x80 * pb == ph);
            lemma_pow2_unfold((8 * w) as nat);
            if v as int >= 0 {
                lemma_pow2_strictly_increases((8 * w - 1) as nat, 8 * w);
                lemma_small_mod(v as nat, pow2(8 * w));
                assert(bytes[0] < 0x80) by {
                    if bytes[0] >= 0x80 {
                        lemma_mul_inequality(0x80, bytes[0] as int, pb);
                    }
                }
            } else {
                lemma_mod_multiples_vanish(1, v as int, p);
                lemma_small_mod((v as int + p) as nat, pow2(8 * w));
                assert(bytes_unsigned(bytes) as int == v as int + p);
                assert(bytes[0] >= 0x80) by {
                    if bytes[0] < 0x80 {
                        lemma_mul_inequality(bytes[0] as int + 1, 0x80, pb);
                        lemma_mul_is_distributive_add_other_way(pb, bytes[0] as int, 1);
                    }
                }
            }
        }
    }
}

/// Reducing a bit string's signed or unsigned reading modulo `2^len` gives
/// back its unsigned value: the byte-first round trip for bit strings.
pub proof fn lemma_bits_value_mod(bits: Seq<u8>, signed: bool)
    ensures
        (bits_value(bits, signed)) % (pow2(bits.len()) as int) == bits_unsigned(bits),
{
    let w = bits.len();
    lemma_pow2_pos(w);
    lemma_bits_unsigned_bound(bits);
    if signed && w > 0 && bits[0] != 0 {
        lemma_mod_multiples_vanish(1, bits_value(bits, signed), pow2(w) as int);
        lemma_small_mod(bits_unsigned(bits), pow2(w));
    } else {
        lemma_small_mod(bits_unsigned(bits), pow2(w));
    }
}

/// Reducing a byte string's signed or unsigned reading modulo `2^(8*len)`
/// gives back its unsigned value: the byte-first round trip for byte strings.
pub proof fn lemma_bytes_value_mod(bytes: Seq<u8>, signed: bool)
    ensures
        (bytes_value(bytes, signed)) % (pow2(8 * bytes.len()) as int) == bytes_unsigned(bytes),
{
    let w = bytes.len();
    lemma_pow2_pos(8 * w);
    lemma_bytes_unsigned_bound(bytes);
    if signed && w > 0 && bytes[0] >= 0x80 {
        lemma_mod_multiples_vanish(1, bytes_value(bytes, signed), pow2(8 * w) as int);
        lemma_small_mod(bytes_unsigned(bytes), pow2(8 * w));
    } else {
        lemma_small_mod(bytes_unsigned(bytes), pow2(8 * w));
    }
}

/// Which bit strings of at most 128 bits carry a value representable by the
/// transport integer: all of them, except an unsigned 128-bit string whose
/// leading bit is set.
pub proof fn lemma_bits_fit_i128(s: Seq<u8>, signed: bool)
    requires
        s.len() <= 128,
    ensures
        if s.len() == 128 && !signed && s[0] != 0 {
            bits_value(s, signed) > i128::MAX
        } else {
            i128::MIN <= bits_value(s, signed) <= i128::MAX
        },
{
    let len = s.len();
    lemma_bits_unsigned_bound(s);
    lemma_pow2_128();
    if len > 0 {
        lemma_bits_unsigned_msb(s);
        lemma_pow2_unfold(len);
        lemma_mul_basics(pow2((len - 1) as nat) as int);
        assert(bit_of(s[0]) * pow2((len - 1) as nat) == if s[0] != 0 {
            pow2((len - 1) as nat)
        } else {
            0nat
        });
        if len - 1 < 127 {
            lemma_pow2_strictly_increases((len - 1) as nat, 127);
        }
    }
    if len < 127 {
        lemma_pow2_strictly_increases(len, 127);
    }
}

/// Which byte strings of at most 16 bytes carry a value representable by the
/// transport integer: all of them, except an unsigned 16-byte string whose
/// leading byte has the high bit set.
pub proof fn lemma_bytes_fit_i128(s: Seq<u8>, signed: bool)
    requires
        s.len() <= 16,
    ensures
        if s.len() == 16 && !signed && s[0] >= 0x80 {
            bytes_value(s, signed) > i128::MAX
        } else {
            i128::MIN <= bytes_value(s, signed) <= i128::MAX
        },
{
    let len = s.len();
    lemma_bytes_unsigned_bound(s);
    lemma_pow2_128();
    if len > 0 {
        let p = pow2((8 * (len - 1)) as nat) as int;
        lemma_bytes_unsigned_msb(s);
        lemma_pow2_unfold((8 * len) as nat);
        lemma_pow2_adds(7, (8 * (len - 1)) as nat);
        assert(pow2(7) == 0x80) by {
            lemma2_to64();
        }
        if s[0] >= 0x80 {
            assert(s[0] * p >= 0x80 * p) by {
                lemma_mul_inequality(0x80, s[0] as int, p);
            }
        } else {
            assert(s[0] * p <= 0x7f * p) by {
                lemma_mul_inequality(s[0] as int, 0x7f, p);
            }
        }
        if 8 * len - 1 < 127 {
            lemma_pow2_strictly_increases((8 * len - 1) as nat, 127);
        }
        assert(0x80 * p == pow2((7 + 8 * (len - 1)) as nat));
        assert(0x7f * p + p == 0x80 * p);
    }
    if 8 * len < 127 {
        lemma_pow2_strictly_increases(8 * len, 127);
    }
    if len == 16 {
        lemma_pow2_adds(7, 120);
        lemma2_to64();
        lemma2_to64_rest();
    }
}

/// The sharp range of a byte string's reading: unsigned values fill
/// `[0, 2^(8*len))`, signed values fill `[-2^(8*len-1), 2^(8*len-1))`.
pub proof fn lemma_bytes_value_range(s: Seq<u8>, signed: bool)
    ensures
        !signed ==> 0 <= bytes_value(s, signed) < pow2(8 * s.len()) as int,
        signed ==> (if s.len() == 0 {
            bytes_value(s, signed) == 0
        } else {
            -(pow2((8 * s.len() - 1) as nat) as int) <= bytes_value(s, signed) < pow2(
                (8 * s.len() - 1) as nat,
            ) as int
        }),
{
    let len = s.len();
    lemma_bytes_unsigned_bound(s);
    if signed && len > 0 {
        let p = pow2((8 * (len - 1)) as nat) as int;
        lemma_bytes_unsigned_msb(s);
        lemma_pow2_unfold((8 * len) as nat);
        lemma_pow2_adds(7, (8 * (len - 1)) as nat);
        assert(pow2(7) == 0x80) by {
            lemma2_to64();
        }
        if s[0] >= 0x80 {
            assert(s[0] * p >= 0x80 * p) by {
                lemma_mul_inequality(0x80, s[0] as int, p);
            }
        } else {
            assert(s[0] * p <= 0x7f * p) by {
                lemma_mul_inequality(s[0] as int, 0x7f, p);
            }
        }
        assert(0x80 * p == pow2((7 + 8 * (len - 1)) as nat));
        assert(0x7f * p + p == 0x80 * p);
    }
}

/// The big-endian bit string of `v`'s low `width` bits, one element per bit.
pub open spec fn nat2bits(v: nat, width: nat) -> Seq<u8>
    decreases width,
{
    if width == 0 {
        Seq::empty()
    } else {
        nat2bits(v / 2, (width - 1) as nat).push((v % 2) as u8)
    }
}

/// The big-endian byte string of `v`'s low `width` bytes.
pub open spec fn nat2bytes(v: nat, width: nat) -> Seq<u8>
    decreases width,
{
    if width == 0 {
        Seq::empty()
    } else {
        nat2bytes(v / 256, (width - 1) as nat).push((v % 256) as u8)
    }
}

/// `nat2bits` emits exactly `width` proper bits whose value is `v mod 2^width`.
pub proof fn lemma_nat2bits_value(v: nat, width: nat)
    ensures
        nat2bits(v, width).len() == width,
        is_bits(nat2bits(v, width)),
        bits_unsigned(nat2bits(v, width)) == v % pow2(width),
    decreases width,
{
    if width == 0 {
        assert(pow2(0) == 1) by {
            lemma2_to64();
        }
        lemma_mod_multiples_vanish(v as int, 0, 1);
        lemma_small_mod(0, 1);
    } else {
        lemma_nat2bits_value(v / 2, (width - 1) as nat);
        let s = nat2bits(v, width);
        assert(s.drop_last() =~= nat2bits(v / 2, (width - 1) as nat));
        assert(s.last() == (v % 2) as u8);
        let ph = pow2((width - 1) as nat) as int;
        lemma_pow2_pos((width - 1) as nat);
        lemma_pow2_unfold(width);
        assert((v as int) % (2 * ph) == 2 * (((v as int) / 2) % ph) + (v as int) % 2) by {
            lemma_mod_breakdown(v as int, 2, ph);
        }
        assert(bit_of(s.last()) == (v as int) % 2);
    }
}

/// `nat2bytes` emits exactly `width` bytes whose value is `v mod 2^(8*width)`.
pub proof fn lemma_nat2bytes_value(v: nat, width: nat)
    ensures
        nat2bytes(v, width).len() == width,
        bytes_unsigned(nat2bytes(v, width)) == v % pow2(8 * width),
    decreases width,
{
    if width == 0 {
        assert(pow2(0) == 1) by {
            lemma2_to64();
        }
        lemma_mod_multiples_vanish(v as int, 0, 1);
        lemma_small_mod(0, 1);
    } else {
        lemma_nat2bytes_value(v / 256, (width - 1) as nat);
        let s = nat2bytes(v, width);
        assert(s.drop_last() =~= nat2bytes(v / 256, (width - 1) as nat));
        assert(s.last() == (v % 256) as u8);
        let ph = pow2((8 * (width - 1)) as nat) as int;
        lemma_pow2_pos((8 * (width - 1)) as nat);
        lemma_pow2_adds((8 * (width - 1)) as nat, 8);
        assert(pow2(8) == 256) by {
            lemma2_to64();
        }
        assert((v as int) % (256 * ph) == 256 * (((v as int) / 256) % ph) + (v as int) % 256) by {
            lemma_mod_breakdown(v as int, 256, ph);
        }
        assert(pow2(8 * width) == 256 * ph) by {
            lemma_mul_is_commutative(256, ph);
        }
        assert(s.last() as nat == (v as int) % 256);
    }
}

/// The sequence read group-by-group from the end: group `i` of the result is
/// group `n-1-i` of the input, each group `g` elements long.
pub open spec fn swap_units(s: Seq<u8>, g: nat) -> Seq<u8>
    recommends
        g > 0,
        (s.len() as int) % (g as int) == 0,
{
    Seq::new(s.len(), |i: int| s[s.len() - g - (g as int) * (i / (g as int)) + (i % (g as int))])
}

/// Every element of a unit-swapped bit string is an element of the original
/// string, so a swapped bit string is still a bit string.
#[verifier::spinoff_prover]
pub proof fn lemma_swap_units_is_bits(s: Seq<u8>, g: nat)
    requires
        g > 0,
        (s.len() as int) % (g as int) == 0,
        is_bits(s),
    ensures
        is_bits(swap_units(s, g)),
{
    let gi = g as int;
    let len = s.len() as int;
    assert forall|i: int| 0 <= i < len implies (swap_units(s, g)[i] == 0 || swap_units(s, g)[i]
        == 1) by {
        let q = i / gi;
        let r = i % gi;
        lemma_fundamental_div_mod(i, gi);
        lemma_mod_bound(i, gi);
        let j = len - gi - gi * q + r;
        assert(0 <= j < len) by {
            assert(gi * q <= i - 0) by {
                lemma_fundamental_div_mod(i, gi);
            }
            assert(gi * q + gi <= len) by {
                lemma_div_pos_is_pos(i, gi);
                lemma_fundamental_div_mod(len, gi);
                assert(i < gi * (len / gi));
                lemma_multiply_divide_lt(i, gi, len / gi);
                assert(q < len / gi);
                lemma_mul_inequality(q + 1, len / gi, gi);
                lemma_mul_is_commutative(gi, len / gi);
                lemma_mul_is_commutative(gi, q + 1);
                lemma_mul_is_distributive_add_other_way(gi, q, 1);
            }
        }
        assert(swap_units(s, g)[i] == s[j]);
    }
}

/// Swapping the unit order twice gives the original sequence back.
#[verifier::spinoff_prover]
pub proof fn lemma_swap_units_involution(s: Seq<u8>, g: nat)
    requires
        g > 0,
        (s.len() as int) % (g as int) == 0,
    ensures
        swap_units(swap_units(s, g), g) =~= s,
{
    let gi = g as int;
    let len = s.len() as int;
    let t = swap_units(s, g);
    assert forall|i: int| 0 <= i < len implies swap_units(t, g)[i] == s[i] by {
        let q = i / gi;
        let r = i % gi;
        lemma_fundamental_div_mod(i, gi);
        lemma_mod_bound(i, gi);
        let j = len - gi - gi * q + r;
        assert(0 <= j < len) by {
            lemma_mod_bound(len, gi);
            assert(gi * q <= i - 0) by {
                lemma_fundamental_div_mod(i, gi);
            }
            assert(gi * q + gi <= len) by {
                lemma_div_pos_is_pos(i, gi);
                lemma_fundamental_div_mod(len, gi);
                assert(i < gi * (len / gi));
                lemma_multiply_divide_lt(i, gi, len / gi);
                assert(q < len / gi);
                lemma_mul_inequality(q + 1, len / gi, gi);
                lemma_mul_is_commutative(gi, len / gi);
                lemma_mul_is_commutative(gi, q + 1);
                lemma_mul_is_distributive_add_other_way(gi, q, 1);
            }
        }
        assert(t[i] == s[j]);
        assert(j / gi == len / gi - 1 - q && j % gi == r) by {
            lemma_fundamental_div_mod(len, gi);
            lemma_mul_is_commutative(gi, len / gi);
            assert(j == gi * (len / gi - 1 - q) + r) by {
                lemma_mul_is_distributive_sub(gi, len / gi - 1, q);
                lemma_mul_is_distributive_sub(gi, len / gi, 1);
            }
            lemma_fundamental_div_mod_converse(j, gi, len / gi - 1 - q, r);
        }
        assert(swap_units(t, g)[i] == t[len - gi - gi * (i / gi) + (i % gi)]);
        assert(t[j] == s[len - gi - gi * (j / gi) + (j % gi)]);
        assert(len - gi - gi * (len / gi - 1 - q) + r == gi * q + r) by {
            lemma_fundamental_div_mod(len, gi);
            lemma_mul_is_commutative(gi, len / gi);
            lemma_mul_is_distributive_sub(gi, len / gi - 1, q);
            lemma_mul_is_distributive_sub(gi, len / gi, 1);
        }
    }
}

/// Reverse the unit order of a sequence whose length is a whole number of
/// `g`-element units, keeping each unit's own elements in place.
pub fn swap_units_exec(data: &[u8], g: usize) -> (r: Vec<u8>)
    requires
        g > 0,
        (data@.len() as int) % (g as int) == 0,
    ensures
        r@ == swap_units(data@, g as nat),
{
    let len = data.len();
    let groups = len / g;
    let mut out: Vec<u8> = Vec::new();
    let mut c: usize = 0;
    proof {
        lemma_fundamental_div_mod(len as int, g as int);
    }
    while c < groups
        invariant
            c <= groups,
            g > 0,
            len == data@.len(),
            len as int == (g as int) * (groups as int),
            out@.len() == (g as int) * (c as int),
            forall|x: int| 0 <= x < out@.len() ==> out@[x] == swap_units(data@, g as nat)[x],
        decreases groups - c,
    {
        proof {
            lemma_mul_is_commutative(g as int, groups as int - 1 - c as int);
            lemma_mul_is_distributive_sub(g as int, groups as int - c as int, 1);
            assert((g as int) * (groups as int - 1 - c as int) + g as int == (g as int) * (
            groups as int - c as int));
            assert((g as int) * (groups as int - c as int) <= (g as int) * (groups as int)) by {
                lemma_mul_inequality(groups as int - c as int, groups as int, g as int);
                lemma_mul_is_commutative(g as int, groups as int - c as int);
                lemma_mul_is_commutative(g as int, groups as int);
            }
        }
        let base = (groups - 1 - c) * g;
        let mut j: usize = 0;
        while j < g
            invariant
                j <= g,
                c < groups,
                len == data@.len(),
                len as int == (g as int) * (groups as int),
                base as int == (g as int) * (groups as int - 1 - c),
                base + g <= len,
                out@.len() == (g as int) * (c as int) + j,
                forall|x: int| 0 <= x < out@.len() ==> out@[x] == swap_units(data@, g as nat)[x],
            decreases g - j,
        {
            let ghost x = out@.len() as int;
            proof {
                let gi = g as int;
                assert(x == gi * (c as int) + j);
                lemma_fundamental_div_mod_converse(x, gi, c as int, j as int);
                assert(len as int - gi - gi * (x / gi) + (x % gi) == base as int + j as int) by {
                    lemma_mul_is_distributive_sub(gi, groups as int, 1);
                    lemma_mul_is_distributive_sub(gi, groups as int - 1, c as int);
                }
            }
            out.push(data[base + j]);
            j = j + 1;
        }
        proof {
            lemma_mul_is_distributive_add(g as int, c as int, 1);
        }
        c = c + 1;
    }
    proof {
        assert(out@.len() == len as int) by {
            lemma_mul_is_commutative(g as int, groups as int);
        }
        assert(out@ =~= swap_units(data@, g as nat));
    }
    out
}

} // verus!
