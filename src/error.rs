use vstd::prelude::*;
use crate::identifier::Identifier;

verus! {

/// Which header field was found invalid.
#[derive(Debug)]
pub enum HeaderError {
    Magic,
    Version,
    FooterOffset,
    FooterLength,
    FooterChecksum,
    Other(String),
}

/// What went wrong with the underlying storage.
#[derive(Debug, PartialEq, Eq, Clone, Copy, Structural)]
pub enum IoError {
    /// A read reached past the end of the storage.
    UnexpectedEof,
    /// A position or a size does not fit the storage.
    TooLarge,
    /// A position or an offset was invalid.
    InvalidInput,
    /// Bytes that a codec could not encode or decode.
    InvalidData,
}

/// Errors of the container.
#[derive(Debug)]
pub enum CogtainerError {
    /// The header holds a wrong magic number or a malformed field.
    InvalidHeader(HeaderError),
    /// The footer bytes do not hash to the checksum in the header.
    FooterChecksumError,
    /// The payload of a block does not hash to its stored checksum.
    BlockChecksumError(Identifier),
    /// The underlying storage failed.
    IOError(IoError),
    /// No block has this identifier.
    BlockNotFound(Identifier),
    /// The footer passed its checksum but does not describe a valid layout.
    Deserialize,
    Unknown,
}

} // verus!
