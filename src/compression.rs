//! Optional per-block compression, applied by callers above the engine.
use vstd::prelude::*;
use crate::error::{CogtainerError, IoError};

verus! {

/// How a block's payload is compressed.
#[derive(Debug, Default, Clone, Copy, PartialEq, Eq)]
pub enum BlockCompression {
    #[default]
    Uncompressed,
    /// gzip at the given level, 0 to 10.
    Gzip(u32),
}

/// A block's metadata as higher layers store it: how the payload is
/// compressed, and the caller's own metadata.
#[derive(Debug, Default, Clone, PartialEq)]
pub struct BlockHeader<T> {
    pub compression: BlockCompression,
    pub metadata: T,
}

/// The gzip stream that flate2 writes for `data` at `level`.
pub uninterp spec fn gzip_of(level: u32, data: Seq<u8>) -> Seq<u8>;

/// What flate2 reads from the gzip stream `data`, or `None` where it fails.
pub uninterp spec fn gunzip_of(data: Seq<u8>) -> Option<Seq<u8>>;

/// Relies on flate2::write::GzEncoder: the gzip stream of `data` at `level`,
/// a function of the two alone. flate2's default backend debug-asserts a
/// level of at most 10.
#[verifier::external_body]
fn gzip(level: u32, data: &[u8]) -> (r: Option<Vec<u8>>)
    requires
        level <= 10,
    ensures
        r matches Some(z) ==> z@ == gzip_of(level, data@),
{
    let mut e = flate2::write::GzEncoder::new(Vec::new(), flate2::Compression::new(level));
    match std::io::Write::write_all(&mut e, data) {
        Ok(()) => e.finish().ok(),
        Err(_) => None,
    }
}

/// Relies on flate2::read::GzDecoder: the bytes that the gzip stream `data`
/// holds, or a failure where it is not a valid stream.
#[verifier::external_body]
fn gunzip(data: &[u8]) -> (r: Option<Vec<u8>>)
    ensures
        r matches Some(x) ==> gunzip_of(data@) == Some(x@),
        r is None ==> gunzip_of(data@) is None,
{
    let mut d = flate2::read::GzDecoder::new(data);
    let mut out = Vec::new();
    match std::io::Read::read_to_end(&mut d, &mut out) {
        Ok(_) => Some(out),
        Err(_) => None,
    }
}

impl BlockCompression {
    /// Compresses `data`; without compression it is returned as it is.
    pub fn compress(&self, data: Vec<u8>) -> (r: Result<Vec<u8>, CogtainerError>)
        requires
            (match *self {
                BlockCompression::Gzip(level) => level <= 10,
                _ => true,
            }),
        ensures
            *self == BlockCompression::Uncompressed ==> (r matches Ok(v) && v@ == data@),
            (match *self {
                BlockCompression::Gzip(level) => r matches Ok(z) ==> z@ == gzip_of(level, data@),
                _ => true,
            }),
            r is Err ==> (r matches Err(CogtainerError::IOError(IoError::InvalidData))),
    {
        match self {
            BlockCompression::Uncompressed => Ok(data),
            BlockCompression::Gzip(level) => match gzip(*level, data.as_slice()) {
                Some(z) => Ok(z),
                None => Err(CogtainerError::IOError(IoError::InvalidData)),
            },
        }
    }

    /// Decompresses `data`; without compression it is returned as it is.
    pub fn decompress(&self, data: Vec<u8>) -> (r: Result<Vec<u8>, CogtainerError>)
        ensures
            *self == BlockCompression::Uncompressed ==> (r matches Ok(v) && v@ == data@),
            *self matches BlockCompression::Gzip(_) ==> (r matches Ok(x) ==> gunzip_of(data@) == Some(x@)),
            *self matches BlockCompression::Gzip(_) ==> (r is Err <==> gunzip_of(data@) is None),
            r is Err ==> (r matches Err(CogtainerError::IOError(IoError::InvalidData))),
    {
        match self {
            BlockCompression::Uncompressed => Ok(data),
            BlockCompression::Gzip(_) => match gunzip(data.as_slice()) {
                Some(x) => Ok(x),
                None => Err(CogtainerError::IOError(IoError::InvalidData)),
            },
        }
    }
}

} // verus!
