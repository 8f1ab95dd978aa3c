//! The ways an operation of this library can fail.
use vstd::prelude::*;

verus! {

/// Why an operation failed.
#[derive(Debug, Clone, Copy, PartialEq, Eq, Structural)]
pub enum Error {
    /// A file could not be read or written.
    Io,
    /// Rows, structured data or binary data are malformed.
    Decode,
    /// An envelope names a version that is not known, or a filter cannot be
    /// written in the version it carries.
    UnsupportedVersion,
    /// No membership filter can be built over the given hashes.
    FilterBuild,
    /// A key or signature is malformed, or a cryptographic primitive failed.
    Crypto,
    /// Fewer partial signatures than the threshold asks for.
    InsufficientSignatures,
    /// The partial signatures could not be combined.
    InvalidSignature,
    /// The content hash differs from the one recorded in the manifest.
    HashMismatch,
    /// The serial differs from the one recorded in the manifest.
    SerialMismatch,
    /// A signature is too long for the two-byte length of the envelope.
    SignatureTooLong,
}

} // verus!
