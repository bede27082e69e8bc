//! The codec contract and the composition primitives: the base codec, the
//! delegating codec and the adapter.
//!
//! Every unit of the engine exposes `parse`, `build` and `sizeof`, each
//! pinned to a specification function of the same shape; composition wraps
//! one codec in another without changing that surface.

use vstd::prelude::*;
use vstd::slice::slice_to_vec;

use crate::errors::ConstructError;
use crate::value::{build_result_view, parse_result_view, SpecValue, Value};

verus! {

/// The single polymorphic surface of the engine.  `spec_parse`,
/// `spec_build` and `spec_sizeof` say, per codec, exactly which value or
/// error every call returns; the executable methods are bound to them.
pub trait Codec: Sized {
    /// The codec's configuration is sound: constructors establish this and
    /// nothing mutates a codec afterwards.
    spec fn wf(&self) -> bool;

    /// What `parse` returns on each input buffer.
    spec fn spec_parse(&self, data: Seq<u8>) -> Result<SpecValue, ConstructError>;

    /// What `build` returns on each value.
    spec fn spec_build(&self, v: SpecValue) -> Result<Seq<u8>, ConstructError>;

    /// What `sizeof` returns: a fixed byte or bit count, or the error that
    /// marks a value-dependent length.
    spec fn spec_sizeof(&self) -> Result<usize, ConstructError>;

    /// Parse a byte buffer into a structured value, consuming the whole
    /// buffer or failing.
    fn parse(&self, data: &[u8]) -> (r: Result<Value, ConstructError>)
        requires
            self.wf(),
        ensures
            parse_result_view(r) == self.spec_parse(data@),
    ;

    /// Build a structured value back into a byte buffer.
    fn build(&self, obj: &Value) -> (r: Result<Vec<u8>, ConstructError>)
        requires
            self.wf(),
        ensures
            build_result_view(r) == self.spec_build(obj@),
    ;

    /// The fixed encoded size, where one exists.
    fn sizeof(&self) -> (r: Result<usize, ConstructError>)
        requires
            self.wf(),
        ensures
            r == self.spec_sizeof(),
    ;
}

/// The base codec: it hands byte buffers through unchanged in both
/// directions and has no fixed size of its own.
pub struct Construct {}

impl Construct {
    /// A fresh base codec.
    pub fn new() -> (c: Construct)
        ensures
            c.wf(),
    {
        Construct {  }
    }
}

impl Codec for Construct {
    open spec fn wf(&self) -> bool {
        true
    }

    open spec fn spec_parse(&self, data: Seq<u8>) -> Result<SpecValue, ConstructError> {
        Ok(SpecValue::Bytes(data))
    }

    open spec fn spec_build(&self, v: SpecValue) -> Result<Seq<u8>, ConstructError> {
        match v {
            SpecValue::Bytes(b) => Ok(b),
            _ => Err(ConstructError::ValidationError),
        }
    }

    open spec fn spec_sizeof(&self) -> Result<usize, ConstructError> {
        Err(ConstructError::SizeofError)
    }

    fn parse(&self, data: &[u8]) -> (r: Result<Value, ConstructError>) {
        Ok(Value::Bytes(slice_to_vec(data)))
    }

    fn build(&self, obj: &Value) -> (r: Result<Vec<u8>, ConstructError>) {
        match obj {
            Value::Bytes(b) => Ok(slice_to_vec(b.as_slice())),
            _ => Err(ConstructError::ValidationError),
        }
    }

    fn sizeof(&self) -> (r: Result<usize, ConstructError>) {
        Err(ConstructError::SizeofError)
    }
}

/// The delegating codec: it wraps one inner codec and forwards `parse`,
/// `build` and `sizeof` unchanged.  It exists so that higher codecs can be
/// an inner codec plus one extra behaviour, and adds no failure mode of its
/// own.
pub struct Subconstruct<C: Codec> {
    /// The wrapped codec.
    pub subcon: C,
}

impl<C: Codec> Subconstruct<C> {
    /// Wrap an inner codec.
    pub fn new(subcon: C) -> (s: Subconstruct<C>)
        ensures
            s.subcon == subcon,
            subcon.wf() ==> s.wf(),
    {
        Subconstruct { subcon }
    }
}

impl<C: Codec> Codec for Subconstruct<C> {
    open spec fn wf(&self) -> bool {
        self.subcon.wf()
    }

    open spec fn spec_parse(&self, data: Seq<u8>) -> Result<SpecValue, ConstructError> {
        self.subcon.spec_parse(data)
    }

    open spec fn spec_build(&self, v: SpecValue) -> Result<Seq<u8>, ConstructError> {
        self.subcon.spec_build(v)
    }

    open spec fn spec_sizeof(&self) -> Result<usize, ConstructError> {
        self.subcon.spec_sizeof()
    }

    fn parse(&self, data: &[u8]) -> (r: Result<Value, ConstructError>) {
        self.subcon.parse(data)
    }

    fn build(&self, obj: &Value) -> (r: Result<Vec<u8>, ConstructError>) {
        self.subcon.build(obj)
    }

    fn sizeof(&self) -> (r: Result<usize, ConstructError>) {
        self.subcon.sizeof()
    }
}

/// The decode/encode hook pair that a concrete adapter supplies: `decode`
/// reshapes the value an inner codec parsed, `encode` reshapes a value into
/// what the inner codec builds.  The hooks never touch raw bytes.
pub trait AdapterHooks: Sized {
    /// The hook configuration is sound.
    spec fn wf(&self) -> bool;

    /// What `decode` returns on each intermediate value.
    spec fn spec_decode(&self, v: SpecValue) -> Result<SpecValue, ConstructError>;

    /// What `encode` returns on each value.
    spec fn spec_encode(&self, v: SpecValue) -> Result<SpecValue, ConstructError>;

    /// Reshape a value the inner codec parsed.
    fn decode(&self, obj: Value) -> (r: Result<Value, ConstructError>)
        requires
            self.wf(),
        ensures
            parse_result_view(r) == self.spec_decode(obj@),
    ;

    /// Reshape a value into the inner codec's intermediate form.
    fn encode(&self, obj: &Value) -> (r: Result<Value, ConstructError>)
        requires
            self.wf(),
        ensures
            parse_result_view(r) == self.spec_encode(obj@),
    ;
}

/// The adapter: a delegating codec with an injected hook pair.  `parse`
/// first parses through the inner codec and then decodes; `build` first
/// encodes and then builds through the inner codec; `sizeof` is the inner
/// codec's, since the hooks only reshape values on either side of the byte
/// boundary.
pub struct Adapter<C: Codec, H: AdapterHooks> {
    /// The wrapped codec.
    pub subcon: C,
    /// The decode/encode pair supplied by the concrete adapter.
    pub hooks: H,
}

impl<C: Codec, H: AdapterHooks> Adapter<C, H> {
    /// Wrap an inner codec with a hook pair.
    pub fn new(subcon: C, hooks: H) -> (a: Adapter<C, H>)
        ensures
            a.subcon == subcon,
            a.hooks == hooks,
            subcon.wf() && hooks.wf() ==> a.wf(),
    {
        Adapter { subcon, hooks }
    }
}

impl<C: Codec, H: AdapterHooks> Codec for Adapter<C, H> {
    open spec fn wf(&self) -> bool {
        self.subcon.wf() && self.hooks.wf()
    }

    open spec fn spec_parse(&self, data: Seq<u8>) -> Result<SpecValue, ConstructError> {
        match self.subcon.spec_parse(data) {
            Ok(intermediate) => self.hooks.spec_decode(intermediate),
            Err(e) => Err(e),
        }
    }

    open spec fn spec_build(&self, v: SpecValue) -> Result<Seq<u8>, ConstructError> {
        match self.hooks.spec_encode(v) {
            Ok(intermediate) => self.subcon.spec_build(intermediate),
            Err(e) => Err(e),
        }
    }

    open spec fn spec_sizeof(&self) -> Result<usize, ConstructError> {
        self.subcon.spec_sizeof()
    }

    fn parse(&self, data: &[u8]) -> (r: Result<Value, ConstructError>) {
        match self.subcon.parse(data) {
            Ok(intermediate) => self.hooks.decode(intermediate),
            Err(e) => Err(e),
        }
    }

    fn build(&self, obj: &Value) -> (r: Result<Vec<u8>, ConstructError>) {
        match self.hooks.encode(obj) {
            Ok(intermediate) => self.subcon.build(&intermediate),
            Err(e) => Err(e),
        }
    }

    fn sizeof(&self) -> (r: Result<usize, ConstructError>) {
        self.subcon.sizeof()
    }
}

/// The delegation law: a delegating codec parses, builds and sizes exactly
/// as its inner codec does, on every input.
pub proof fn lemma_subconstruct_delegates<C: Codec>(s: Subconstruct<C>, data: Seq<u8>, v: SpecValue)
    ensures
        s.spec_parse(data) == s.subcon.spec_parse(data),
        s.spec_build(v) == s.subcon.spec_build(v),
        s.spec_sizeof() == s.subcon.spec_sizeof(),
{
}

/// The adapter round-trip law: wherever the hooks invert one another on a
/// value and the inner codec round-trips the encoded intermediate, the
/// adapter round-trips the value itself.
pub proof fn lemma_adapter_roundtrip<C: Codec, H: AdapterHooks>(
    a: Adapter<C, H>,
    v: SpecValue,
    intermediate: SpecValue,
    b: Seq<u8>,
)
    requires
        a.hooks.spec_encode(v) == Ok::<SpecValue, ConstructError>(intermediate),
        a.subcon.spec_build(intermediate) == Ok::<Seq<u8>, ConstructError>(b),
        a.subcon.spec_parse(b) == Ok::<SpecValue, ConstructError>(intermediate),
        a.hooks.spec_decode(intermediate) == Ok::<SpecValue, ConstructError>(v),
    ensures
        a.spec_build(v) == Ok::<Seq<u8>, ConstructError>(b),
        a.spec_parse(b) == Ok::<SpecValue, ConstructError>(v),
{
}

/// The canonical byte-first round trip, for every codec alike: a buffer is
/// canonical when `build` produced it from a value that `parse` recovers,
/// and building what a canonical buffer parses to gives the buffer back.
pub proof fn lemma_build_parse_canonical<C: Codec>(c: C, v: SpecValue, b: Seq<u8>)
    requires
        c.spec_build(v) == Ok::<Seq<u8>, ConstructError>(b),
        c.spec_parse(b) == Ok::<SpecValue, ConstructError>(v),
    ensures
        (c.spec_parse(b) matches Ok(w) && c.spec_build(w) == Ok::<Seq<u8>, ConstructError>(b)),
{
}

/// The base codec is the identity on byte buffers: parsing what was built
/// gives the value back, and building what was parsed gives the buffer back.
pub proof fn lemma_construct_identity(c: Construct, data: Seq<u8>)
    ensures
        c.spec_parse(data) == Ok::<SpecValue, ConstructError>(SpecValue::Bytes(data)),
        c.spec_build(SpecValue::Bytes(data)) == Ok::<Seq<u8>, ConstructError>(data),
{
}

} // verus!
