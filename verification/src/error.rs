//! Error types for compression and decompression.

use enough::StopReason;
use vstd::prelude::*;

verus! {

/// Error returned when compression fails.
#[derive(Debug, Clone, Copy, PartialEq, Eq)]
#[non_exhaustive]
pub enum CompressionError {
    /// The output buffer is too small to hold the compressed data.
    InsufficientSpace,
    /// The caller's cancellation source asked to stop.
    Stopped(StopReason),
}

/// Error returned when decompression fails.
#[derive(Debug, Clone, Copy, PartialEq, Eq)]
#[non_exhaustive]
pub enum DecompressionError {
    /// The compressed data is invalid or corrupt.
    BadData,
    /// The output buffer is too small for the decompressed data.
    InsufficientSpace,
    /// The zlib or gzip header is invalid.
    InvalidHeader,
    /// The data does not have the checksum or the size that the footer gives.
    ChecksumMismatch,
    /// The decompressed data is longer than the caller allows.
    OutputLimitExceeded,
    /// The caller's cancellation source asked to stop.
    Stopped(StopReason),
}

impl CompressionError {
    /// The error in words.
    pub fn message(&self) -> (r: String)
        ensures
            r@ == match *self {
                CompressionError::InsufficientSpace =>
                    "output buffer too small for compressed data"@,
                CompressionError::Stopped(_) => "operation stopped"@,
            },
    {
        match self {
            CompressionError::InsufficientSpace =>
                "output buffer too small for compressed data".to_string(),
            CompressionError::Stopped(_) => "operation stopped".to_string(),
        }
    }
}

impl DecompressionError {
    /// The error in words.
    pub fn message(&self) -> (r: String)
        ensures
            r@ == match *self {
                DecompressionError::BadData => "invalid or corrupt compressed data"@,
                DecompressionError::InsufficientSpace =>
                    "output buffer too small for decompressed data"@,
                DecompressionError::InvalidHeader => "invalid header"@,
                DecompressionError::ChecksumMismatch => "checksum mismatch"@,
                DecompressionError::OutputLimitExceeded => "output limit exceeded"@,
                DecompressionError::Stopped(_) => "operation stopped"@,
            },
    {
        match self {
            DecompressionError::BadData => "invalid or corrupt compressed data".to_string(),
            DecompressionError::InsufficientSpace =>
                "output buffer too small for decompressed data".to_string(),
            DecompressionError::InvalidHeader => "invalid header".to_string(),
            DecompressionError::ChecksumMismatch => "checksum mismatch".to_string(),
            DecompressionError::OutputLimitExceeded => "output limit exceeded".to_string(),
            DecompressionError::Stopped(_) => "operation stopped".to_string(),
        }
    }
}

/// Error from streaming decompression: either a decompression error or an error of
/// the input source.
#[derive(Debug)]
pub enum StreamError<E> {
    /// The compressed data is invalid or corrupt.
    Decompress(DecompressionError),
    /// An error occurred reading from the input source.
    Source(E),
}

impl<E> From<DecompressionError> for StreamError<E> {
    fn from(e: DecompressionError) -> (r: Self) {
        StreamError::Decompress(e)
    }
}

impl<E> vstd::std_specs::convert::FromSpecImpl<DecompressionError> for StreamError<E> {
    open spec fn obeys_from_spec() -> bool {
        true
    }

    open spec fn from_spec(e: DecompressionError) -> Self {
        StreamError::Decompress(e)
    }
}

} // verus!
