//! The error taxonomy shared by every codec.

use vstd::prelude::*;

verus! {

/// One error kind per way a codec operation can abort.  A failed `parse`
/// yields no value and a failed `build` yields no bytes; every error belongs
/// to a single call and propagates to the caller unchanged.
#[derive(Debug, PartialEq, Eq)]
pub enum ConstructError {
    /// `sizeof()` was requested on a codec whose encoded length depends on
    /// the value being built.
    SizeofError,
    AdaptationError,
    /// Reserved for adapters that add value-level constraints, and raised
    /// when a value of the wrong shape reaches a codec.
    ValidationError,
    /// The input buffer did not hold exactly the bytes the codec needs.
    StreamError,
    /// A fixed-format field was asked for an element kind it cannot carry.
    FormatFieldError,
    /// A width beyond the codec's maximum, a negative value for an unsigned
    /// codec, a byte swap on a width that is not a whole number of bytes, or
    /// a parsed value too wide for the transport integer.
    IntegerError,
    /// An unrecognized encoding name, a byte sequence invalid for the named
    /// encoding, a missing terminator, or content past a fixed length.
    StringError,
    MappingError,
    RangeError,
    RepeatError,
    ConstError,
    IndexFieldError,
    CheckError,
    ExplicitError,
    NamedTupleError,
    TimestampError,
    UnionError,
    SelectError,
    SwitchError,
    StopFieldError,
    PaddingError,
    TerminatedError,
    RawCopyError,
    RotationError,
    ChecksumError,
    CancelParsing,
    Other(String),
}

} // verus!
