//! The payload that codecs decode and encode.

use vstd::prelude::*;

use crate::errors::ConstructError;

verus! {

/// A decoded or to-be-encoded payload: an integer carried by the 128-bit
/// transport type, a raw byte buffer, or a text string.  Parsing produces a
/// new `Value`; building consumes one; no codec mutates one in place.
#[derive(Debug, PartialEq, Eq)]
pub enum Value {
    Int(i128),
    Bytes(Vec<u8>),
    Str(String),
}

/// The mathematical shadow of a [`Value`]: byte buffers become byte
/// sequences and strings become character sequences.
pub enum SpecValue {
    Int(i128),
    Bytes(Seq<u8>),
    Str(Seq<char>),
}

impl View for Value {
    type V = SpecValue;

    open spec fn view(&self) -> SpecValue {
        match self {
            Value::Int(v) => SpecValue::Int(*v),
            Value::Bytes(b) => SpecValue::Bytes(b@),
            Value::Str(s) => SpecValue::Str(s@),
        }
    }
}

/// The view of a parse or decode result, for stating contracts.
pub open spec fn parse_result_view(r: Result<Value, ConstructError>) -> Result<
    SpecValue,
    ConstructError,
> {
    match r {
        Ok(v) => Ok(v@),
        Err(e) => Err(e),
    }
}

/// The view of a build result, for stating contracts.
pub open spec fn build_result_view(r: Result<Vec<u8>, ConstructError>) -> Result<
    Seq<u8>,
    ConstructError,
> {
    match r {
        Ok(b) => Ok(b@),
        Err(e) => Err(e),
    }
}

} // verus!
