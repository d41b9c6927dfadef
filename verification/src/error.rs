//! Error types for the image reader.
//!
//! `Error` describes why a single CBOR value could not be decoded from a byte
//! stream.  `WireFormatError` is the error type of the reader as a whole; it
//! folds decoder errors in and adds the failures of the higher layers (a
//! missing blob, a whiteout lookup, an unsupported compressed chunk).

use vstd::prelude::*;
use vstd::string::StringExecFns;

verus! {

/// Why a single value could not be decoded from a byte stream.
///
/// The decoder-specific variants name the kind of item that was expected at
/// the point of failure; `Eof` means the stream ended inside a value.
#[derive(Clone, Copy, Debug, PartialEq, Eq, Structural)]
pub enum Error {
    Message,
    Eof,
    Syntax,
    ExpectedBoolean,
    InvalidBooleanValue,
    ExpectedInteger,
    ExpectedString,
    ExpectedNull,
    ExpectedArray,
    ExpectedArrayComma,
    ExpectedArrayEnd,
    ExpectedMap,
    ExpectedMapColon,
    ExpectedMapComma,
    ExpectedMapEnd,
    ExpectedEnum,
    TrailingCharacters,
}

/// `EINVAL`, as the kernel returns it: a malformed argument or datum.
pub const EINVAL: i32 = -22;

/// `ESPIPE`: an attempt to seek on an object that cannot seek there.
pub const ESPIPE: i32 = -29;

/// `ENOENT`: no such file, directory or value.
pub const ENOENT: i32 = -2;

/// `ENOTDIR`: the object has the wrong type for the operation.
pub const ENOTDIR: i32 = -20;

/// `ENOTSUPP`: the operation is not supported.
pub const ENOTSUPP: i32 = -524;

/// An error surfaced by the image reader.
#[derive(Clone, Copy, Debug, PartialEq, Eq, Structural)]
pub enum WireFormatError {
    /// A `Local` blob reference cannot be turned into a digest.
    LocalRefError,
    /// A seek was attempted through a blob reference that points into
    /// another blob.
    SeekOtherError,
    /// A decoder expected a value and found the end of the stream.
    ValueMissing,
    /// The wire data is malformed: an unknown tag, a record of the wrong
    /// size, or a truncated table.
    InvalidSerializedData,
    /// The image layout does not follow the expected schema.
    InvalidImageSchema,
    /// The manifest names a version this reader does not understand.
    InvalidImageVersion,
    /// The manifest's integrity data is malformed.
    InvalidFsVerityData,
    /// The CBOR layer rejected the stream.
    CBORError(Error),
    /// A hex digest string could not be parsed.
    HexError,
    /// No object with the requested name or inode number exists.
    NotFound,
    /// The inode has the wrong type for the operation.
    WrongType,
    /// The operation is not supported (a compressed chunk, for instance).
    Unsupported,
}

/// The errors a decoder can surface: the stream ended before any value,
/// the CBOR layer refused it, or the decoded data itself is malformed.
pub open spec fn is_decode_error(e: WireFormatError) -> bool {
    ||| e matches WireFormatError::CBORError(_)
    ||| e == WireFormatError::ValueMissing
    ||| e == WireFormatError::InvalidSerializedData
    ||| e == WireFormatError::InvalidFsVerityData
}

impl WireFormatError {
    /// The kernel-style (negative) errno this error maps to at the adapter
    /// boundary.
    pub fn to_errno(&self) -> (r: i32)
        ensures
            r == match *self {
                WireFormatError::LocalRefError => EINVAL,
                WireFormatError::SeekOtherError => ESPIPE,
                WireFormatError::ValueMissing => ENOENT,
                WireFormatError::InvalidSerializedData => EINVAL,
                WireFormatError::InvalidImageSchema => EINVAL,
                WireFormatError::InvalidImageVersion => EINVAL,
                WireFormatError::InvalidFsVerityData => EINVAL,
                WireFormatError::CBORError(_) => EINVAL,
                WireFormatError::HexError => EINVAL,
                WireFormatError::NotFound => ENOENT,
                WireFormatError::WrongType => ENOTDIR,
                WireFormatError::Unsupported => ENOTSUPP,
            },
    {
        match *self {
            WireFormatError::LocalRefError => EINVAL,
            WireFormatError::SeekOtherError => ESPIPE,
            WireFormatError::ValueMissing => ENOENT,
            WireFormatError::InvalidSerializedData => EINVAL,
            WireFormatError::InvalidImageSchema => EINVAL,
            WireFormatError::InvalidImageVersion => EINVAL,
            WireFormatError::InvalidFsVerityData => EINVAL,
            WireFormatError::CBORError(_) => EINVAL,
            WireFormatError::HexError => EINVAL,
            WireFormatError::NotFound => ENOENT,
            WireFormatError::WrongType => ENOTDIR,
            WireFormatError::Unsupported => ENOTSUPP,
        }
    }

    /// A short description of the error, for the host's logs.
    pub fn describe(&self) -> (r: String)
        ensures
            r@ == match *self {
                WireFormatError::LocalRefError => "cannot turn local ref into a digest"@,
                WireFormatError::SeekOtherError => "cannot seek to other blob"@,
                WireFormatError::ValueMissing => "no value present"@,
                WireFormatError::InvalidSerializedData => "invalid serialized data"@,
                WireFormatError::InvalidImageSchema => "invalid image schema"@,
                WireFormatError::InvalidImageVersion => "invalid image version"@,
                WireFormatError::InvalidFsVerityData => "invalid fs verity data"@,
                WireFormatError::CBORError(_) => "CBOR error"@,
                WireFormatError::HexError => "bad hex digest string"@,
                WireFormatError::NotFound => "no such file or value"@,
                WireFormatError::WrongType => "wrong object type for the operation"@,
                WireFormatError::Unsupported => "operation not supported"@,
            },
    {
        let s = match *self {
            WireFormatError::LocalRefError => "cannot turn local ref into a digest",
            WireFormatError::SeekOtherError => "cannot seek to other blob",
            WireFormatError::ValueMissing => "no value present",
            WireFormatError::InvalidSerializedData => "invalid serialized data",
            WireFormatError::InvalidImageSchema => "invalid image schema",
            WireFormatError::InvalidImageVersion => "invalid image version",
            WireFormatError::InvalidFsVerityData => "invalid fs verity data",
            WireFormatError::CBORError(_) => "CBOR error",
            WireFormatError::HexError => "bad hex digest string",
            WireFormatError::NotFound => "no such file or value",
            WireFormatError::WrongType => "wrong object type for the operation",
            WireFormatError::Unsupported => "operation not supported",
        };
        String::from_str(s)
    }

    /// Wraps a decoder error, as the codec boundary does.
    pub fn from_codec(e: Error) -> (r: WireFormatError)
        ensures
            r == WireFormatError::CBORError(e),
    {
        WireFormatError::CBORError(e)
    }
}

} // verus!
