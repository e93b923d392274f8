//! Compressing and decompressing a whole buffer in one call.

use crate::bits;
use crate::compress::compressor;
use crate::compress::compressor::Compressor;
use crate::compress::level::CompressionLevel;
use crate::compress::progress;
use crate::compress::stored;
use crate::compress::wrap;
use crate::container;
use crate::decompress::laws;
use crate::decompress::window::WrapperFormat;
use crate::decompress::{DecompressOutcome, Decompressor};
use crate::error::{CompressionError, DecompressionError};
use crate::stop::Unstoppable;
use vstd::prelude::*;

verus! {

/// Compress a whole buffer into a gzip stream in one call.
///
/// Wraps [`Compressor::gzip_compress`], sizing the output via
/// [`Compressor::gzip_compress_bound`] and returning a right-sized `Vec`.
pub fn gzip_compress(data: &[u8], level: CompressionLevel) -> (r: Result<
    Vec<u8>,
    CompressionError,
>)
    requires
        level.wf(),
        progress::bound(data@.len() as int) + 18 <= usize::MAX,
    ensures
        r matches Ok(out) && wrap::holds_gzip(out@, data@) && out@.len() <= progress::bound(
            data@.len() as int,
        ) + 18,
        r matches Ok(out) && (if data@.len() <= compressor::passthrough_of(level) {
            bits::to_bits(out@.subrange(10, out@.len() - 8)) == stored::with_stored(
                Seq::empty(),
                data@,
                true,
            )
        } else {
            compressor::level_writes(
                level,
                progress::bound(data@.len() as int) + 8,
                out@.subrange(10, out@.len() - 8),
                data@,
                0,
                true,
            )
        }),
{
    let mut compressor: Compressor = Compressor::new(level);
    let mut out: Vec<u8> = vec![0u8; Compressor::gzip_compress_bound(data.len())];
    match compressor.gzip_compress(data, out.as_mut_slice(), Unstoppable) {
        Ok(n) => {
            let ghost whole = out@;
            out.truncate(n);
            assert(out@.subrange(10, n - 8) =~= whole.subrange(10, n - 8));
            Ok(out)
        },
        Err(e) => Err(e),
    }
}

/// Compress a whole buffer into a zlib stream in one call.
///
/// Wraps [`Compressor::zlib_compress`], sizing the output via
/// [`Compressor::zlib_compress_bound`] and returning a right-sized `Vec`.
pub fn zlib_compress(data: &[u8], level: CompressionLevel) -> (r: Result<
    Vec<u8>,
    CompressionError,
>)
    requires
        level.wf(),
        progress::bound(data@.len() as int) + 6 <= usize::MAX,
    ensures
        r matches Ok(out) && wrap::holds_zlib(out@, data@) && out@.len() <= progress::bound(
            data@.len() as int,
        ) + 6,
        r matches Ok(out) && (if data@.len() <= compressor::passthrough_of(level) {
            bits::to_bits(out@.subrange(2, out@.len() - 4)) == stored::with_stored(
                Seq::empty(),
                data@,
                true,
            )
        } else {
            compressor::level_writes(
                level,
                progress::bound(data@.len() as int) + 4,
                out@.subrange(2, out@.len() - 4),
                data@,
                0,
                true,
            )
        }),
{
    let mut compressor: Compressor = Compressor::new(level);
    let mut out: Vec<u8> = vec![0u8; Compressor::zlib_compress_bound(data.len())];
    match compressor.zlib_compress(data, out.as_mut_slice(), Unstoppable) {
        Ok(n) => {
            let ghost whole = out@;
            out.truncate(n);
            assert(out@.subrange(2, n - 4) =~= whole.subrange(2, n - 4));
            Ok(out)
        },
        Err(e) => Err(e),
    }
}

/// What unwrapping a stream of a format gives.
pub open spec fn unwrapped(format: WrapperFormat, data: Seq<u8>, cap: int) -> container::Unwrapped {
    match format {
        WrapperFormat::Raw => container::deflate(data, cap),
        WrapperFormat::Zlib => container::zlib(data, cap),
        WrapperFormat::Gzip => container::gzip(data, cap),
    }
}

/// The result of a one-shot decompression agrees with what the stream means.
pub open spec fn agrees(
    r: Result<Vec<u8>, DecompressionError>,
    u: container::Unwrapped,
) -> bool {
    match r {
        Ok(out) => u matches container::Unwrapped::Done { consumed, out: o } && out@ == o,
        Err(DecompressionError::BadData) => u is BadData,
        Err(DecompressionError::OutputLimitExceeded) => u is NoSpace,
        Err(DecompressionError::InvalidHeader) => u is BadHeader,
        Err(DecompressionError::ChecksumMismatch) => u is BadFooter,
        Err(_) => false,
    }
}

/// Decompress a whole gzip stream into a new `Vec` in one call.
///
/// `max_output_size` is a hard ceiling: if the data would expand past it,
/// decompression returns `OutputLimitExceeded` instead of allocating without bound.
/// The returned `Vec` grows only as needed, never beyond the ceiling.
pub fn gzip_decompress(data: &[u8], max_output_size: usize) -> (r: Result<
    Vec<u8>,
    DecompressionError,
>)
    ensures
        agrees(r, container::gzip(data@, max_output_size as int)),
{
    decompress_oneshot(data, max_output_size, WrapperFormat::Gzip)
}

/// Decompress a whole zlib stream into a new `Vec` in one call.
///
/// `max_output_size` is a hard ceiling; see [`gzip_decompress`].
pub fn zlib_decompress(data: &[u8], max_output_size: usize) -> (r: Result<
    Vec<u8>,
    DecompressionError,
>)
    ensures
        agrees(r, container::zlib(data@, max_output_size as int)),
{
    decompress_oneshot(data, max_output_size, WrapperFormat::Zlib)
}

/// The first buffer size: about four times the input, but no more than the ceiling.
fn first_size(len: usize, max_output_size: usize) -> (r: usize)
    ensures
        r <= max_output_size,
{
    let guess: usize = if len > usize::MAX / 4 {
        usize::MAX
    } else if len < 16 {
        64
    } else {
        4 * len
    };
    if guess < max_output_size {
        guess
    } else {
        max_output_size
    }
}

/// Shared grow-and-retry driver for the one-shot decompressors.
///
/// Starts from a small buffer, doubles it while the output does not fit, and never
/// grows past `max_output_size`.
fn decompress_oneshot(data: &[u8], max_output_size: usize, format: WrapperFormat) -> (r: Result<
    Vec<u8>,
    DecompressionError,
>)
    ensures
        agrees(r, unwrapped(format, data@, max_output_size as int)),
{
    let mut decompressor: Decompressor = Decompressor::new();
    let mut cap: usize = first_size(data.len(), max_output_size);
    loop
        invariant
            decompressor.wf(),
            cap <= max_output_size,
        decreases max_output_size - cap,
    {
        let mut out: Vec<u8> = vec![0u8; cap];
        let r: Result<DecompressOutcome, DecompressionError> = match format {
            WrapperFormat::Raw => decompressor.deflate_decompress(
                data,
                out.as_mut_slice(),
                Unstoppable,
            ),
            WrapperFormat::Zlib => decompressor.zlib_decompress(
                data,
                out.as_mut_slice(),
                Unstoppable,
            ),
            WrapperFormat::Gzip => decompressor.gzip_decompress(
                data,
                out.as_mut_slice(),
                Unstoppable,
            ),
        };
        proof {
            laws::law_unwrap_room(data@, cap as int, max_output_size as int);
        }
        match r {
            Ok(outcome) => {
                out.truncate(outcome.output_written);
                return Ok(out);
            },
            Err(DecompressionError::InsufficientSpace) => {
                if cap >= max_output_size {
                    return Err(DecompressionError::OutputLimitExceeded);
                }
                cap = if cap > max_output_size / 2 {
                    max_output_size
                } else if cap == 0 {
                    1
                } else {
                    2 * cap
                };
            },
            Err(e) => {
                return Err(e);
            },
        }
    }
}

/// Each meaning of a stream has one answer: what a stream that is in order holds, all of it
/// and nothing more, or the error that says what is wrong.
pub proof fn law_answers(r: Result<Vec<u8>, DecompressionError>, u: container::Unwrapped)
    requires
        agrees(r, u),
    ensures
        match u {
            container::Unwrapped::Done { consumed, out } => r matches Ok(v) && v@ == out,
            container::Unwrapped::BadHeader => r matches Err(DecompressionError::InvalidHeader),
            container::Unwrapped::BadData => r matches Err(DecompressionError::BadData),
            container::Unwrapped::NoSpace => r matches Err(
                DecompressionError::OutputLimitExceeded,
            ),
            container::Unwrapped::BadFooter => r matches Err(DecompressionError::ChecksumMismatch),
        },
{
}

} // verus!
