//! What can go wrong.
use vstd::prelude::*;

verus! {

/// Why a pair of bounds and a precision make no histogram.
#[derive(Debug, Clone, Copy, PartialEq, Eq, Structural)]
pub enum CreationError {
    /// The lowest discernible value is zero.
    LowIsZero,
    /// Twice the lowest discernible value does not fit in a `u64`.
    LowExceedsMax,
    /// The highest trackable value is less than twice the lowest discernible one.
    HighLessThanTwiceLow,
    /// More than five significant digits are asked for.
    SigFigExceedsMax,
    /// The precision cannot be kept at values as large as the lowest discernible one.
    CannotRepresentSigFigBeyondLow,
}

/// Why a value cannot be recorded.
#[derive(Debug, Clone, Copy, PartialEq, Eq, Structural)]
pub enum RecordError {
    /// The value lies beyond the range that the histogram was made for.
    ValueOutOfRangeResizeDisabled,
}

/// An i/o error, of which nothing is known here but that it came.
#[verifier::external_type_specification]
#[verifier::external_body]
pub struct ExIoError(std::io::Error);

/// Error serializing a `PackedHistogram`.
#[derive(Debug)]
pub enum PackedSerializeError {
    /// A count above `i64::MAX` cannot be zig-zag encoded.
    CountNotSerializable,
    /// An i/o error occurred.
    Io(std::io::Error),
}

impl From<std::io::Error> for PackedSerializeError {
    fn from(e: std::io::Error) -> (r: Self) {
        PackedSerializeError::Io(e)
    }
}

impl vstd::std_specs::convert::FromSpecImpl<std::io::Error> for PackedSerializeError {
    open spec fn obeys_from_spec() -> bool {
        true
    }

    open spec fn from_spec(e: std::io::Error) -> Self {
        PackedSerializeError::Io(e)
    }
}

/// Error deserializing a `PackedHistogram`.
#[derive(Debug)]
pub enum PackedDeserializeError {
    /// The stream did not start with a supported V2 cookie.
    InvalidCookie,
    /// A non-zero normalizing offset or non-1.0 conversion ratio (packed is never rotated).
    UnsupportedFeature,
    /// Header parameters could not build a histogram, or the payload indexed out of range.
    InvalidParameters,
    /// An i/o error occurred.
    Io(std::io::Error),
}

impl From<std::io::Error> for PackedDeserializeError {
    fn from(e: std::io::Error) -> (r: Self) {
        PackedDeserializeError::Io(e)
    }
}

impl vstd::std_specs::convert::FromSpecImpl<std::io::Error> for PackedDeserializeError {
    open spec fn obeys_from_spec() -> bool {
        true
    }

    open spec fn from_spec(e: std::io::Error) -> Self {
        PackedDeserializeError::Io(e)
    }
}

/// Which error a stream gives, apart from what an i/o error holds.
pub enum DecodeError {
    /// The cookie is not a supported one.
    InvalidCookie,
    /// The header asks for what is not supported.
    UnsupportedFeature,
    /// The header or the payload fits no histogram.
    InvalidParameters,
    /// The stream could not be read to its end.
    Io,
}

impl View for PackedDeserializeError {
    type V = DecodeError;

    open spec fn view(&self) -> DecodeError {
        match self {
            PackedDeserializeError::InvalidCookie => DecodeError::InvalidCookie,
            PackedDeserializeError::UnsupportedFeature => DecodeError::UnsupportedFeature,
            PackedDeserializeError::InvalidParameters => DecodeError::InvalidParameters,
            PackedDeserializeError::Io(_) => DecodeError::Io,
        }
    }
}

} // verus!
