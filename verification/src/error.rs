use vstd::prelude::*;

verus! {

/// Every failure the decoding pipeline can signal, from the byte cursor up to
/// the typed accessors.
#[derive(Clone, Copy, Debug, PartialEq, Eq, Structural)]
pub enum NbtError {
    /// The cursor was asked for more bytes than remain.
    UnexpectedEnd,
    /// A string's bytes are not valid UTF-8.
    InvalidEncoding,
    /// A count field is negative.
    InvalidLength,
    /// A type-code byte outside the NBT range was encountered.
    UnknownTagType,
    /// A chunk record's compression scheme byte is not the zlib scheme.
    UnsupportedCompression,
    /// A chunk record declares more bytes than are available.
    Truncated,
    /// The zlib stream of a chunk record is malformed.
    DecompressionFailed,
    /// A compound holds no member of the requested name.
    MissingField,
    /// A payload was projected to a variant it does not have; the fields carry
    /// the expected and the actual type code.
    TypeMismatch { expected: u8, actual: u8 },
}

} // verus!
