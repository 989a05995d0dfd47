//! The error taxonomy shared by the encoder, the correlator and the
//! credential reader.

use vstd::prelude::*;

verus! {

/// Caller input that is refused before a single byte is produced.
#[derive(Clone, Copy, Debug, PartialEq, Eq, Structural)]
pub enum ValidationError {
    /// A value-list position outside the 32 bits of a value-mask.
    BitOutOfRange,
    /// An input-only window with a non-zero depth.
    InputOnlyDepth,
    /// An input-only window with a non-zero border width.
    InputOnlyBorderWidth,
    /// An input-only window carrying an attribute that only painted windows have.
    InputOnlyAttribute,
    /// A request submitted before the connection became active.
    NotActive,
    /// The connection has handed out its last sequence number.
    SequenceExhausted,
    /// An attempt to establish a connection that is already active.
    AlreadyActive,
}

/// A malformed or unreachable credential file.
#[derive(Clone, Copy, Debug, PartialEq, Eq, Structural)]
pub enum CredentialError {
    /// The family code is not one of the five known families.
    InvalidFamily,
    /// The data ends inside a length prefix or inside a counted field.
    TruncatedData,
    /// Neither an explicit override nor a home directory is available.
    UnresolvableCredentialPath,
}

/// Everything that can go wrong between building a request and seeing its reply.
#[derive(Clone, Copy, Debug, PartialEq, Eq, Structural)]
pub enum Error {
    /// The output buffer could not be obtained.
    Encoding,
    /// The request was refused before encoding.
    Validation(ValidationError),
    /// The server answered with an error reply carrying this code; the
    /// connection stays usable.
    Protocol(u8),
    /// The connection closed while the request was outstanding.
    ConnectionClosed,
    /// The credential lookup failed.
    Credential(CredentialError),
}

} // verus!
