//! The string codecs: the encoded-string adapter and the padded,
//! length-prefixed, terminated and greedy framings.
//!
//! Each codec resolves its encoding name at construction and stores the
//! resolved [`TextEncoding`] beside the name; an unknown name is rejected
//! there and never at parse or build time.

use vstd::prelude::*;
use vstd::slice::slice_subrange;

use crate::codec::Codec;
use crate::encodings::{
    decode_string, decode_text, encode_string, encode_text, name_describes, name_unit_size,
    pad_unit, unit_size, TextEncoding,
};
use crate::errors::ConstructError;
use crate::value::{SpecValue, Value};

verus! {

/// The code-unit size of a resolved encoding, executable form.
fn unit_size_exec(te: TextEncoding) -> (r: usize)
    ensures
        r == unit_size(te),
{
    match te.kind {
        crate::encodings::TextKind::Ascii => 1,
        crate::encodings::TextKind::Utf8 => 1,
        crate::encodings::TextKind::Utf16 => 2,
        crate::encodings::TextKind::Utf32 => 4,
    }
}

/// The buffer with every trailing pad unit removed: whole `u`-byte zero
/// units are stripped from the end while one is present.
pub open spec fn strip_pad(bs: Seq<u8>, u: nat) -> Seq<u8>
    decreases bs.len(),
    when u > 0
{
    if bs.len() >= u && bs.subrange(bs.len() - u, bs.len() as int) == pad_unit(u) {
        strip_pad(bs.take(bs.len() - u), u)
    } else {
        bs
    }
}

/// True when the bytes from `from` to `to` are all zero.
fn all_zero(data: &[u8], from: usize, to: usize) -> (r: bool)
    requires
        from <= to <= data@.len(),
    ensures
        r == (data@.subrange(from as int, to as int) == pad_unit((to - from) as nat)),
{
    let mut j = from;
    while j < to
        invariant
            from <= j <= to <= data@.len(),
            forall|x: int| from <= x < j ==> data@[x] == 0u8,
        decreases to - j,
    {
        if data[j] != 0 {
            proof {
                assert(data@.subrange(from as int, to as int)[j - from] == data@[j as int]);
                assert(pad_unit((to - from) as nat)[j - from] == 0u8);
            }
            return false;
        }
        j = j + 1;
    }
    proof {
        assert(data@.subrange(from as int, to as int) =~= pad_unit((to - from) as nat));
    }
    true
}

/// A fixed-length string field: the whole field is always `length` bytes,
/// trailing pad units are stripped on parse and zero padding is added on
/// build up to exactly the fixed length.
pub struct PaddedString {
    /// The fixed total length in bytes.
    pub length: usize,
    /// The encoding name as given.
    pub encoding: String,
    /// The encoding resolved from the name.
    pub enc: TextEncoding,
}

impl PaddedString {
    /// A padded-string codec over a fixed byte length and an encoding name.
    pub fn new(length: usize, encoding: &str) -> (r: Result<PaddedString, ConstructError>)
        ensures
            name_unit_size(encoding@) == 0 ==> r == Err::<PaddedString, ConstructError>(
                ConstructError::StringError,
            ),
            name_unit_size(encoding@) != 0 ==> (r matches Ok(c) && c.wf() && c.length == length
                && c.encoding@ == encoding@ && name_describes(encoding@, c.enc)),
    {
        let enc = match TextEncoding::from_name(encoding) {
            Ok(enc) => enc,
            Err(e) => {
                return Err(e);
            },
        };
        Ok(PaddedString { length, encoding: encoding.to_owned(), enc })
    }
}

impl Codec for PaddedString {
    open spec fn wf(&self) -> bool {
        name_describes(self.encoding@, self.enc)
    }

    open spec fn spec_parse(&self, data: Seq<u8>) -> Result<SpecValue, ConstructError> {
        if data.len() != self.length {
            Err(ConstructError::StreamError)
        } else {
            match decode_text(strip_pad(data, unit_size(self.enc)), self.enc) {
                Some(cs) => Ok(SpecValue::Str(cs)),
                None => Err(ConstructError::StringError),
            }
        }
    }

    open spec fn spec_build(&self, v: SpecValue) -> Result<Seq<u8>, ConstructError> {
        match v {
            SpecValue::Str(s) => match encode_text(s, self.enc) {
                Some(b) => if b.len() > self.length {
                    Err(ConstructError::StringError)
                } else {
                    Ok(b + pad_unit((self.length - b.len()) as nat))
                },
                None => Err(ConstructError::StringError),
            },
            _ => Err(ConstructError::ValidationError),
        }
    }

    open spec fn spec_sizeof(&self) -> Result<usize, ConstructError> {
        Ok(self.length)
    }

    fn parse(&self, data: &[u8]) -> (r: Result<Value, ConstructError>) {
        if data.len() != self.length {
            return Err(ConstructError::StreamError);
        }
        let u = unit_size_exec(self.enc);
        let mut k = data.len();
        proof {
            assert(data@.take(data@.len() as int) =~= data@);
        }
        while k >= u && all_zero(data, k - u, k)
            invariant
                u == unit_size(self.enc),
                u > 0,
                k <= data@.len(),
                strip_pad(data@, u as nat) == strip_pad(data@.take(k as int), u as nat),
            decreases k,
        {
            proof {
                let cur = data@.take(k as int);
                assert(cur.subrange(k - u, k as int) =~= data@.subrange(k - u, k as int));
                assert(cur.take(k - u) =~= data@.take(k - u));
                assert(strip_pad(cur, u as nat) == strip_pad(data@.take(k - u), u as nat));
            }
            k = k - u;
        }
        proof {
            let cur = data@.take(k as int);
            if k >= u {
                assert(cur.subrange(k - u, k as int) =~= data@.subrange(k - u, k as int));
            }
            assert(strip_pad(cur, u as nat) == cur);
        }
        match decode_string(slice_subrange(data, 0, k), self.enc) {
            Ok(s) => Ok(Value::Str(s)),
            Err(e) => Err(e),
        }
    }

    fn build(&self, obj: &Value) -> (r: Result<Vec<u8>, ConstructError>) {
        match obj {
            Value::Str(s) => {
                let mut b = match encode_string(s.as_str(), self.enc) {
                    Ok(b) => b,
                    Err(e) => {
                        return Err(e);
                    },
                };
                if b.len() > self.length {
                    return Err(ConstructError::StringError);
                }
                let ghost borig = b@;
                while b.len() < self.length
                    invariant
                        borig.len() <= b@.len() <= self.length,
                        b@ == borig + pad_unit((b@.len() - borig.len()) as nat),
                    decreases self.length - b@.len(),
                {
                    proof {
                        assert(borig + pad_unit((b@.len() + 1 - borig.len()) as nat) =~= (borig
                            + pad_unit((b@.len() - borig.len()) as nat)).push(0u8));
                    }
                    b.push(0);
                }
                Ok(b)
            },
            _ => Err(ConstructError::ValidationError),
        }
    }

    fn sizeof(&self) -> (r: Result<usize, ConstructError>) {
        Ok(self.length)
    }
}

/// A length-prefixed string: a nested integer codec carries the byte count
/// of the encoded text that follows it.
pub struct PascalString<LF: Codec> {
    /// The codec of the length prefix.
    pub lengthfield: LF,
    /// The encoding name as given.
    pub encoding: String,
    /// The encoding resolved from the name.
    pub enc: TextEncoding,
}

impl<LF: Codec> PascalString<LF> {
    /// A length-prefixed string codec over a nested length codec and an
    /// encoding name.
    pub fn new(lengthfield: LF, encoding: &str) -> (r: Result<PascalString<LF>, ConstructError>)
        ensures
            name_unit_size(encoding@) == 0 ==> r == Err::<PascalString<LF>, ConstructError>(
                ConstructError::StringError,
            ),
            name_unit_size(encoding@) != 0 ==> (r matches Ok(c) && c.lengthfield == lengthfield
                && c.encoding@ == encoding@ && name_describes(encoding@, c.enc) && (lengthfield.wf()
                ==> c.wf())),
    {
        let enc = match TextEncoding::from_name(encoding) {
            Ok(enc) => enc,
            Err(e) => {
                return Err(e);
            },
        };
        Ok(PascalString { lengthfield, encoding: encoding.to_owned(), enc })
    }
}

impl<LF: Codec> Codec for PascalString<LF> {
    open spec fn wf(&self) -> bool {
        self.lengthfield.wf() && name_describes(self.encoding@, self.enc)
    }

    open spec fn spec_parse(&self, data: Seq<u8>) -> Result<SpecValue, ConstructError> {
        match self.lengthfield.spec_sizeof() {
            Err(e) => Err(e),
            Ok(ls) => if data.len() < ls {
                Err(ConstructError::StreamError)
            } else {
                match self.lengthfield.spec_parse(data.take(ls as int)) {
                    Err(e) => Err(e),
                    Ok(SpecValue::Int(n)) => if n < 0 {
                        Err(ConstructError::ValidationError)
                    } else if n as int != data.len() - ls {
                        Err(ConstructError::StreamError)
                    } else {
                        match decode_text(data.skip(ls as int), self.enc) {
                            Some(cs) => Ok(SpecValue::Str(cs)),
                            None => Err(ConstructError::StringError),
                        }
                    },
                    Ok(_) => Err(ConstructError::ValidationError),
                }
            },
        }
    }

    open spec fn spec_build(&self, v: SpecValue) -> Result<Seq<u8>, ConstructError> {
        match v {
            SpecValue::Str(s) => match encode_text(s, self.enc) {
                Some(b) => match self.lengthfield.spec_build(SpecValue::Int(b.len() as i128)) {
                    Ok(lb) => Ok(lb + b),
                    Err(e) => Err(e),
                },
                None => Err(ConstructError::StringError),
            },
            _ => Err(ConstructError::ValidationError),
        }
    }

    open spec fn spec_sizeof(&self) -> Result<usize, ConstructError> {
        Err(ConstructError::SizeofError)
    }

    fn parse(&self, data: &[u8]) -> (r: Result<Value, ConstructError>) {
        let ls = match self.lengthfield.sizeof() {
            Ok(ls) => ls,
            Err(e) => {
                return Err(e);
            },
        };
        if data.len() < ls {
            return Err(ConstructError::StreamError);
        }
        let len_bytes = slice_subrange(data, 0, ls);
        proof {
            assert(len_bytes@ =~= data@.take(ls as int));
        }
        let n = match self.lengthfield.parse(len_bytes) {
            Ok(Value::Int(n)) => n,
            Ok(_) => {
                return Err(ConstructError::ValidationError);
            },
            Err(e) => {
                return Err(e);
            },
        };
        if n < 0 {
            return Err(ConstructError::ValidationError);
        }
        let rem = data.len() - ls;
        if n != rem as i128 {
            return Err(ConstructError::StreamError);
        }
        let content = slice_subrange(data, ls, data.len());
        proof {
            assert(content@ =~= data@.skip(ls as int));
        }
        match decode_string(content, self.enc) {
            Ok(s) => Ok(Value::Str(s)),
            Err(e) => Err(e),
        }
    }

    fn build(&self, obj: &Value) -> (r: Result<Vec<u8>, ConstructError>) {
        match obj {
            Value::Str(s) => {
                let b = match encode_string(s.as_str(), self.enc) {
                    Ok(b) => b,
                    Err(e) => {
                        return Err(e);
                    },
                };
                let n = b.len();
                let lb = match self.lengthfield.build(&Value::Int(n as i128)) {
                    Ok(lb) => lb,
                    Err(e) => {
                        return Err(e);
                    },
                };
                let mut out = lb;
                let ghost lbs = out@;
                let mut j: usize = 0;
                while j < n
                    invariant
                        j <= n,
                        n == b@.len(),
                        out@ == lbs + b@.take(j as int),
                    decreases n - j,
                {
                    proof {
                        assert(lbs + b@.take(j + 1) =~= (lbs + b@.take(j as int)).push(
                            b@[j as int],
                        ));
                    }
                    out.push(b[j]);
                    j = j + 1;
                }
                proof {
                    assert(b@.take(n as int) =~= b@);
                }
                Ok(out)
            },
            _ => Err(ConstructError::ValidationError),
        }
    }

    fn sizeof(&self) -> (r: Result<usize, ConstructError>) {
        Err(ConstructError::SizeofError)
    }
}

/// A terminated string: the encoded text followed by exactly one
/// terminator unit of the encoding.
pub struct CString {
    /// The encoding name as given.
    pub encoding: String,
    /// The encoding resolved from the name.
    pub enc: TextEncoding,
}

impl CString {
    /// A terminated-string codec over an encoding name.
    pub fn new(encoding: &str) -> (r: Result<CString, ConstructError>)
        ensures
            name_unit_size(encoding@) == 0 ==> r == Err::<CString, ConstructError>(
                ConstructError::StringError,
            ),
            name_unit_size(encoding@) != 0 ==> (r matches Ok(c) && c.wf() && c.encoding@
                == encoding@ && name_describes(encoding@, c.enc)),
    {
        let enc = match TextEncoding::from_name(encoding) {
            Ok(enc) => enc,
            Err(e) => {
                return Err(e);
            },
        };
        Ok(CString { encoding: encoding.to_owned(), enc })
    }
}

impl Codec for CString {
    open spec fn wf(&self) -> bool {
        name_describes(self.encoding@, self.enc)
    }

    open spec fn spec_parse(&self, data: Seq<u8>) -> Result<SpecValue, ConstructError> {
        let u = unit_size(self.enc);
        if data.len() < u || data.subrange(data.len() - u, data.len() as int) != pad_unit(u) {
            Err(ConstructError::StringError)
        } else {
            match decode_text(data.take(data.len() - u), self.enc) {
                Some(cs) => Ok(SpecValue::Str(cs)),
                None => Err(ConstructError::StringError),
            }
        }
    }

    open spec fn spec_build(&self, v: SpecValue) -> Result<Seq<u8>, ConstructError> {
        match v {
            SpecValue::Str(s) => match encode_text(s, self.enc) {
                Some(b) => Ok(b + pad_unit(unit_size(self.enc))),
                None => Err(ConstructError::StringError),
            },
            _ => Err(ConstructError::ValidationError),
        }
    }

    open spec fn spec_sizeof(&self) -> Result<usize, ConstructError> {
        Err(ConstructError::SizeofError)
    }

    fn parse(&self, data: &[u8]) -> (r: Result<Value, ConstructError>) {
        let u = unit_size_exec(self.enc);
        if data.len() < u {
            return Err(ConstructError::StringError);
        }
        if !all_zero(data, data.len() - u, data.len()) {
            return Err(ConstructError::StringError);
        }
        let content = slice_subrange(data, 0, data.len() - u);
        proof {
            assert(content@ =~= data@.take(data@.len() - u));
        }
        match decode_string(content, self.enc) {
            Ok(s) => Ok(Value::Str(s)),
            Err(e) => Err(e),
        }
    }

    fn build(&self, obj: &Value) -> (r: Result<Vec<u8>, ConstructError>) {
        match obj {
            Value::Str(s) => {
                let mut b = match encode_string(s.as_str(), self.enc) {
                    Ok(b) => b,
                    Err(e) => {
                        return Err(e);
                    },
                };
                let u = unit_size_exec(self.enc);
                let ghost borig = b@;
                let mut j: usize = 0;
                while j < u
                    invariant
                        j <= u,
                        b@ == borig + pad_unit(j as nat),
                    decreases u - j,
                {
                    proof {
                        assert(borig + pad_unit((j + 1) as nat) =~= (borig + pad_unit(
                            j as nat,
                        )).push(0u8));
                    }
                    b.push(0);
                    j = j + 1;
                }
                Ok(b)
            },
            _ => Err(ConstructError::ValidationError),
        }
    }

    fn sizeof(&self) -> (r: Result<usize, ConstructError>) {
        Err(ConstructError::SizeofError)
    }
}

/// A greedy string: the entire buffer is the encoded text, with no
/// delimiter of any kind.
pub struct GreedyString {
    /// The encoding name as given.
    pub encoding: String,
    /// The encoding resolved from the name.
    pub enc: TextEncoding,
}

impl GreedyString {
    /// A greedy-string codec over an encoding name.
    pub fn new(encoding: &str) -> (r: Result<GreedyString, ConstructError>)
        ensures
            name_unit_size(encoding@) == 0 ==> r == Err::<GreedyString, ConstructError>(
                ConstructError::StringError,
            ),
            name_unit_size(encoding@) != 0 ==> (r matches Ok(c) && c.wf() && c.encoding@
                == encoding@ && name_describes(encoding@, c.enc)),
    {
        let enc = match TextEncoding::from_name(encoding) {
            Ok(enc) => enc,
            Err(e) => {
                return Err(e);
            },
        };
        Ok(GreedyString { encoding: encoding.to_owned(), enc })
    }
}

impl Codec for GreedyString {
    open spec fn wf(&self) -> bool {
        name_describes(self.encoding@, self.enc)
    }

    open spec fn spec_parse(&self, data: Seq<u8>) -> Result<SpecValue, ConstructError> {
        match decode_text(data, self.enc) {
            Some(cs) => Ok(SpecValue::Str(cs)),
            None => Err(ConstructError::StringError),
        }
    }

    open spec fn spec_build(&self, v: SpecValue) -> Result<Seq<u8>, ConstructError> {
        match v {
            SpecValue::Str(s) => match encode_text(s, self.enc) {
                Some(b) => Ok(b),
                None => Err(ConstructError::StringError),
            },
            _ => Err(ConstructError::ValidationError),
        }
    }

    open spec fn spec_sizeof(&self) -> Result<usize, ConstructError> {
        Err(ConstructError::SizeofError)
    }

    fn parse(&self, data: &[u8]) -> (r: Result<Value, ConstructError>) {
        match decode_string(data, self.enc) {
            Ok(s) => Ok(Value::Str(s)),
            Err(e) => Err(e),
        }
    }

    fn build(&self, obj: &Value) -> (r: Result<Vec<u8>, ConstructError>) {
        match obj {
            Value::Str(s) => encode_string(s.as_str(), self.enc),
            _ => Err(ConstructError::ValidationError),
        }
    }

    fn sizeof(&self) -> (r: Result<usize, ConstructError>) {
        Err(ConstructError::SizeofError)
    }
}

/// The text conversion as an injectable hook pair: `decode` turns a parsed
/// byte buffer into text, `encode` turns text back into a byte buffer,
/// both under one resolved encoding.  Plugged into an [`Adapter`] it gives
/// the encoded-string behaviour over any inner byte codec.
pub struct TextHooks {
    /// The resolved encoding the pair converts under.
    pub enc: TextEncoding,
}

impl crate::codec::AdapterHooks for TextHooks {
    open spec fn wf(&self) -> bool {
        true
    }

    open spec fn spec_decode(&self, v: SpecValue) -> Result<SpecValue, ConstructError> {
        match v {
            SpecValue::Bytes(b) => match decode_text(b, self.enc) {
                Some(cs) => Ok(SpecValue::Str(cs)),
                None => Err(ConstructError::StringError),
            },
            _ => Err(ConstructError::ValidationError),
        }
    }

    open spec fn spec_encode(&self, v: SpecValue) -> Result<SpecValue, ConstructError> {
        match v {
            SpecValue::Str(s) => match encode_text(s, self.enc) {
                Some(b) => Ok(SpecValue::Bytes(b)),
                None => Err(ConstructError::StringError),
            },
            _ => Err(ConstructError::ValidationError),
        }
    }

    fn decode(&self, obj: Value) -> (r: Result<Value, ConstructError>) {
        match obj {
            Value::Bytes(b) => {
                match decode_string(b.as_slice(), self.enc) {
                    Ok(s) => Ok(Value::Str(s)),
                    Err(e) => Err(e),
                }
            },
            _ => Err(ConstructError::ValidationError),
        }
    }

    fn encode(&self, obj: &Value) -> (r: Result<Value, ConstructError>) {
        match obj {
            Value::Str(s) => {
                match encode_string(s.as_str(), self.enc) {
                    Ok(b) => Ok(Value::Bytes(b)),
                    Err(e) => Err(e),
                }
            },
            _ => Err(ConstructError::ValidationError),
        }
    }
}

/// The encoded-string adapter: an inner byte-producing codec with the text
/// conversion on either side of its byte boundary.
pub struct StringEncoded<C: Codec> {
    /// The wrapped byte codec.
    pub subcon: C,
    /// The encoding name as given.
    pub encoding: String,
    /// The encoding resolved from the name.
    pub enc: TextEncoding,
}

impl<C: Codec> StringEncoded<C> {
    /// An encoded-string adapter over an inner codec and an encoding name.
    pub fn new(subcon: C, encoding: &str) -> (r: Result<StringEncoded<C>, ConstructError>)
        ensures
            name_unit_size(encoding@) == 0 ==> r == Err::<StringEncoded<C>, ConstructError>(
                ConstructError::StringError,
            ),
            name_unit_size(encoding@) != 0 ==> (r matches Ok(c) && c.subcon == subcon
                && c.encoding@ == encoding@ && name_describes(encoding@, c.enc) && (subcon.wf()
                ==> c.wf())),
    {
        let enc = match TextEncoding::from_name(encoding) {
            Ok(enc) => enc,
            Err(e) => {
                return Err(e);
            },
        };
        Ok(StringEncoded { subcon, encoding: encoding.to_owned(), enc })
    }
}

impl<C: Codec> Codec for StringEncoded<C> {
    open spec fn wf(&self) -> bool {
        self.subcon.wf() && name_describes(self.encoding@, self.enc)
    }

    open spec fn spec_parse(&self, data: Seq<u8>) -> Result<SpecValue, ConstructError> {
        match self.subcon.spec_parse(data) {
            Ok(SpecValue::Bytes(b)) => match decode_text(b, self.enc) {
                Some(cs) => Ok(SpecValue::Str(cs)),
                None => Err(ConstructError::StringError),
            },
            Ok(_) => Err(ConstructError::ValidationError),
            Err(e) => Err(e),
        }
    }

    open spec fn spec_build(&self, v: SpecValue) -> Result<Seq<u8>, ConstructError> {
        match v {
            SpecValue::Str(s) => match encode_text(s, self.enc) {
                Some(b) => self.subcon.spec_build(SpecValue::Bytes(b)),
                None => Err(ConstructError::StringError),
            },
            _ => Err(ConstructError::ValidationError),
        }
    }

    open spec fn spec_sizeof(&self) -> Result<usize, ConstructError> {
        self.subcon.spec_sizeof()
    }

    fn parse(&self, data: &[u8]) -> (r: Result<Value, ConstructError>) {
        match self.subcon.parse(data) {
            Ok(Value::Bytes(b)) => {
                match decode_string(b.as_slice(), self.enc) {
                    Ok(s) => Ok(Value::Str(s)),
                    Err(e) => Err(e),
                }
            },
            Ok(_) => Err(ConstructError::ValidationError),
            Err(e) => Err(e),
        }
    }

    fn build(&self, obj: &Value) -> (r: Result<Vec<u8>, ConstructError>) {
        match obj {
            Value::Str(s) => {
                let b = match encode_string(s.as_str(), self.enc) {
                    Ok(b) => b,
                    Err(e) => {
                        return Err(e);
                    },
                };
                self.subcon.build(&Value::Bytes(b))
            },
            _ => Err(ConstructError::ValidationError),
        }
    }

    fn sizeof(&self) -> (r: Result<usize, ConstructError>) {
        self.subcon.sizeof()
    }
}

/// Stripping the trailing pad units of a padded buffer recovers the
/// content, as long as the padding is whole units and the content itself
/// does not end in a pad unit.
pub proof fn lemma_strip_pad_of_padded(b: Seq<u8>, u: nat, m: nat)
    requires
        u > 0,
        (m as int) % (u as int) == 0,
        b.len() < u || b.subrange(b.len() - u, b.len() as int) != pad_unit(u),
    ensures
        strip_pad(b + pad_unit(m), u) == b,
    decreases m,
{
    let whole = b + pad_unit(m);
    if m == 0 {
        assert(whole =~= b);
        if b.len() >= u {
            assert(strip_pad(b, u) == b);
        }
    } else {
        assert(m >= u) by {
            vstd::arithmetic::div_mod::lemma_mod_bound(m as int, u as int);
            if m < u {
                vstd::arithmetic::div_mod::lemma_small_mod(m, u);
            }
        }
        assert(whole.subrange(whole.len() - u, whole.len() as int) =~= pad_unit(u));
        assert(whole.take(whole.len() - u) =~= b + pad_unit((m - u) as nat));
        assert((m - u) % (u as int) == 0) by {
            vstd::arithmetic::div_mod::lemma_mod_sub_multiples_vanish(m as int, u as int);
        }
        lemma_strip_pad_of_padded(b, u, (m - u) as nat);
    }
}

/// Round trip for the padded string: text whose encoding fits the fixed
/// length and does not end in a pad unit builds to a padded buffer that
/// parses back to the same text.  The buffer it builds is the canonical,
/// minimally padded form.
pub proof fn lemma_paddedstring_roundtrip(c: PaddedString, s: Seq<char>, b: Seq<u8>)
    requires
        c.wf(),
        encode_text(s, c.enc) == Some(b),
        b.len() <= c.length,
        (c.length - b.len()) % (unit_size(c.enc) as int) == 0,
        b.len() < unit_size(c.enc) || b.subrange(
            b.len() - unit_size(c.enc),
            b.len() as int,
        ) != pad_unit(unit_size(c.enc)),
    ensures
        c.spec_build(SpecValue::Str(s)) == Ok::<Seq<u8>, ConstructError>(
            b + pad_unit((c.length - b.len()) as nat),
        ),
        c.spec_parse(b + pad_unit((c.length - b.len()) as nat)) == Ok::<
            SpecValue,
            ConstructError,
        >(SpecValue::Str(s)),
{
    let u = unit_size(c.enc);
    let m = (c.length - b.len()) as nat;
    let padded = b + pad_unit(m);
    assert(padded.len() == c.length);
    lemma_strip_pad_of_padded(b, u, m);
    crate::encodings::lemma_text_roundtrip(s, c.enc);
}

/// Round trip for the terminated string: every encodable text builds to
/// its encoding plus one terminator unit, and that buffer parses back to
/// the same text.
pub proof fn lemma_cstring_roundtrip(c: CString, s: Seq<char>, b: Seq<u8>)
    requires
        c.wf(),
        encode_text(s, c.enc) == Some(b),
    ensures
        c.spec_build(SpecValue::Str(s)) == Ok::<Seq<u8>, ConstructError>(
            b + pad_unit(unit_size(c.enc)),
        ),
        c.spec_parse(b + pad_unit(unit_size(c.enc))) == Ok::<SpecValue, ConstructError>(
            SpecValue::Str(s),
        ),
{
    let u = unit_size(c.enc);
    let whole = b + pad_unit(u);
    assert(whole.subrange(whole.len() - u, whole.len() as int) =~= pad_unit(u));
    assert(whole.take(whole.len() - u) =~= b);
    crate::encodings::lemma_text_roundtrip(s, c.enc);
}

/// Round trip for the greedy string: every encodable text builds to its
/// bare encoding, which parses back to the same text.
pub proof fn lemma_greedystring_roundtrip(c: GreedyString, s: Seq<char>, b: Seq<u8>)
    requires
        c.wf(),
        encode_text(s, c.enc) == Some(b),
    ensures
        c.spec_build(SpecValue::Str(s)) == Ok::<Seq<u8>, ConstructError>(b),
        c.spec_parse(b) == Ok::<SpecValue, ConstructError>(SpecValue::Str(s)),
{
    crate::encodings::lemma_text_roundtrip(s, c.enc);
}

/// Round trip for the length-prefixed string: wherever the nested length
/// codec itself round-trips the byte count, the whole field round-trips
/// the text.
pub proof fn lemma_pascalstring_roundtrip<LF: Codec>(
    c: PascalString<LF>,
    s: Seq<char>,
    b: Seq<u8>,
    lb: Seq<u8>,
    ls: usize,
)
    requires
        c.wf(),
        encode_text(s, c.enc) == Some(b),
        b.len() <= usize::MAX,
        c.lengthfield.spec_sizeof() == Ok::<usize, ConstructError>(ls),
        c.lengthfield.spec_build(SpecValue::Int(b.len() as i128)) == Ok::<
            Seq<u8>,
            ConstructError,
        >(lb),
        lb.len() == ls,
        c.lengthfield.spec_parse(lb) == Ok::<SpecValue, ConstructError>(
            SpecValue::Int(b.len() as i128),
        ),
    ensures
        c.spec_build(SpecValue::Str(s)) == Ok::<Seq<u8>, ConstructError>(lb + b),
        c.spec_parse(lb + b) == Ok::<SpecValue, ConstructError>(SpecValue::Str(s)),
{
    let whole = lb + b;
    assert(whole.take(ls as int) =~= lb);
    assert(whole.skip(ls as int) =~= b);
    crate::encodings::lemma_text_roundtrip(s, c.enc);
}

/// Round trip for the encoded-string adapter: wherever the inner codec
/// round-trips the encoded bytes, the adapter round-trips the text.
pub proof fn lemma_stringencoded_roundtrip<C: Codec>(
    c: StringEncoded<C>,
    s: Seq<char>,
    b: Seq<u8>,
    bb: Seq<u8>,
)
    requires
        c.wf(),
        encode_text(s, c.enc) == Some(b),
        c.subcon.spec_build(SpecValue::Bytes(b)) == Ok::<Seq<u8>, ConstructError>(bb),
        c.subcon.spec_parse(bb) == Ok::<SpecValue, ConstructError>(SpecValue::Bytes(b)),
    ensures
        c.spec_build(SpecValue::Str(s)) == Ok::<Seq<u8>, ConstructError>(bb),
        c.spec_parse(bb) == Ok::<SpecValue, ConstructError>(SpecValue::Str(s)),
{
    crate::encodings::lemma_text_roundtrip(s, c.enc);
}

/// Which string codecs have a fixed size: the padded string always reports
/// its fixed length, while the length-prefixed, terminated and greedy
/// strings always fail `sizeof`, their encoded length depending on the
/// value.
pub proof fn lemma_string_sizeof<LF: Codec>(
    p: PascalString<LF>,
    t: CString,
    g: GreedyString,
    f: PaddedString,
)
    ensures
        p.spec_sizeof() == Err::<usize, ConstructError>(ConstructError::SizeofError),
        t.spec_sizeof() == Err::<usize, ConstructError>(ConstructError::SizeofError),
        g.spec_sizeof() == Err::<usize, ConstructError>(ConstructError::SizeofError),
        f.spec_sizeof() == Ok::<usize, ConstructError>(f.length),
{
}

} // verus!
