//! DEFLATE/zlib/gzip compression and decompression.
//!
//! - **Compression** ([`Compressor`]): buffer-to-buffer, effort 0-30 with named presets
//!   ([`CompressionLevel::balanced`], etc.), incremental, and in chunks that can be
//!   compressed in parallel.
//! - **Decompression** ([`Decompressor`]): buffer-to-buffer.
//! - **Streaming decompression** ([`StreamDecompressor`]): pull-based, works with any
//!   [`InputSource`].
//!
//! All three DEFLATE-based formats (raw DEFLATE, zlib, gzip) are supported for both
//! compression and decompression.

pub mod arith;
pub mod bits;
pub mod checksum;
pub mod codes;
pub mod compress;
pub mod constants;
pub mod container;
pub mod decompress;
pub mod error;
pub mod fast_bytes;
pub mod grammar;
pub mod matchfinder;
pub mod oneshot;
pub mod stop;
pub mod stream;

pub use checksum::adler32::adler32;
pub use checksum::crc32::{crc32, crc32_combine};
pub use compress::compressor::Compressor;
pub use compress::level::CompressionLevel;
pub use compress::snapshot::CompressorSnapshot;
pub use decompress::source::InputSource;
pub use decompress::streaming::{StreamDecompressor, DEFAULT_CAPACITY};
pub use decompress::{DecompressOutcome, Decompressor};
pub use enough::StopReason;
pub use error::{CompressionError, DecompressionError, StreamError};
pub use oneshot::{gzip_compress, gzip_decompress, zlib_compress, zlib_decompress};
pub use stop::{Stop, Unstoppable};
