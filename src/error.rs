use vstd::prelude::*;

use crate::marker::Marker;

verus! {

/// Every way in which encoding or decoding can fail.
#[derive(Debug, Clone)]
pub enum Error {
    /// The input ended before a read could complete.
    UnexpectedEof,
    /// A boolean byte other than 0 or 1.
    InvalidBoolValue,
    /// A varint size class outside 0..=3; two bits never hold one.
    InvalidVarIntMask,
    /// A string or byte buffer declared longer than the format allows.
    MarkedStringExceededMaxLength,
    /// Bytes that should be UTF-8 are not.
    InvalidString,
    /// A marker with no meaning in the format.
    UnknownMarker(Marker),
    /// The stream held another marker than the one the caller asked for.
    UnexpectedMarker { expected: Marker, actual: Marker },
    /// A fixed-size buffer whose declared length differs from the expected one.
    LengthMismatch { declared: u64, got: u64 },
    /// A tuple was asked for, but the stream holds no byte buffer there.
    TuplesOfTypeNotSupported(Marker),
    TupleStructsNotSupported,
    /// The input does not start with the fixed preamble.
    MissingHeader,
    /// The preamble is followed by a version other than the supported one.
    InvalidVersion(u8),
    /// The top-level value is not a field map.
    RootValueIsNotStruct,
    F32NotSupported,
    OptionsNotSupported,
    UnitNotSupported,
    EnumNotSupported,
    /// A sequence or map whose length is not known before it is written.
    UnknownLength,
    /// A message raised by the code that describes the caller's types.
    Custom(String),
}

/// Shorthand for results of this library.
pub type Result<T> = core::result::Result<T, Error>;

} // verus!
