//! Streaming decompression.

use zenflate::{
    DecompressionError, Decompressor, InputSource, StreamDecompressor, StreamError, Unstoppable,
};

fn stream_decompress_all<S: InputSource>(
    dec: &mut StreamDecompressor<S>,
) -> Result<Vec<u8>, StreamError<S::Error>>
where
    S::Error: core::fmt::Debug,
{
    let mut output = Vec::new();
    while !dec.is_done() {
        dec.fill()?;
        let data = dec.peek();
        output.extend_from_slice(data);
        let n = data.len();
        dec.advance(n);
    }
    Ok(output)
}

#[test]
fn test_stream_deflate_basic() {
    let data = b"Hello, World! Hello, World! Hello, World!";
    let mut c = libdeflater::Compressor::new(libdeflater::CompressionLvl::new(6).unwrap());
    let bound = c.deflate_compress_bound(data.len());
    let mut compressed = vec![0u8; bound];
    let csize = c.deflate_compress(data, &mut compressed).unwrap();

    let mut dec = StreamDecompressor::deflate(&compressed[..csize], 64 * 1024);
    let output = stream_decompress_all(&mut dec).unwrap();
    assert_eq!(&output, data);
}

#[test]
fn test_stream_zlib_basic() {
    let data = b"Hello, World! Hello, World! Hello, World!";
    let mut c = libdeflater::Compressor::new(libdeflater::CompressionLvl::new(6).unwrap());
    let bound = c.zlib_compress_bound(data.len());
    let mut compressed = vec![0u8; bound];
    let csize = c.zlib_compress(data, &mut compressed).unwrap();

    let mut dec = StreamDecompressor::zlib(&compressed[..csize], 64 * 1024);
    let output = stream_decompress_all(&mut dec).unwrap();
    assert_eq!(&output, data);
}

#[test]
fn test_stream_gzip_basic() {
    let data = b"Hello, World! Hello, World! Hello, World!";
    let mut c = libdeflater::Compressor::new(libdeflater::CompressionLvl::new(6).unwrap());
    let bound = c.gzip_compress_bound(data.len());
    let mut compressed = vec![0u8; bound];
    let csize = c.gzip_compress(data, &mut compressed).unwrap();

    let mut dec = StreamDecompressor::gzip(&compressed[..csize], 64 * 1024);
    let output = stream_decompress_all(&mut dec).unwrap();
    assert_eq!(&output, data);
}

#[test]
fn test_stream_all_levels_deflate() {
    let data: Vec<u8> = (0..=255).cycle().take(10_000).collect();
    for level in 0..=12 {
        let mut c =
            libdeflater::Compressor::new(libdeflater::CompressionLvl::new(level).unwrap());
        let bound = c.deflate_compress_bound(data.len());
        let mut compressed = vec![0u8; bound];
        let csize = c.deflate_compress(&data, &mut compressed).unwrap();

        let mut dec = StreamDecompressor::deflate(&compressed[..csize], 64 * 1024);
        let output = stream_decompress_all(&mut dec).unwrap();
        assert_eq!(output, data, "deflate level {level}");
    }
}

#[test]
fn test_stream_all_formats_all_levels() {
    let data: Vec<u8> = (0..=255).cycle().take(50_000).collect();
    for level in 0..=12 {
        let mut c =
            libdeflater::Compressor::new(libdeflater::CompressionLvl::new(level).unwrap());

        // DEFLATE
        {
            let bound = c.deflate_compress_bound(data.len());
            let mut compressed = vec![0u8; bound];
            let csize = c.deflate_compress(&data, &mut compressed).unwrap();
            let mut dec = StreamDecompressor::deflate(&compressed[..csize], 64 * 1024);
            let output = stream_decompress_all(&mut dec).unwrap();
            assert_eq!(output, data, "streaming deflate level {level}");
        }

        // zlib
        {
            let bound = c.zlib_compress_bound(data.len());
            let mut compressed = vec![0u8; bound];
            let csize = c.zlib_compress(&data, &mut compressed).unwrap();
            let mut dec = StreamDecompressor::zlib(&compressed[..csize], 64 * 1024);
            let output = stream_decompress_all(&mut dec).unwrap();
            assert_eq!(output, data, "streaming zlib level {level}");
        }

        // gzip
        {
            let bound = c.gzip_compress_bound(data.len());
            let mut compressed = vec![0u8; bound];
            let csize = c.gzip_compress(&data, &mut compressed).unwrap();
            let mut dec = StreamDecompressor::gzip(&compressed[..csize], 64 * 1024);
            let output = stream_decompress_all(&mut dec).unwrap();
            assert_eq!(output, data, "streaming gzip level {level}");
        }
    }
}

#[test]
fn test_stream_small_capacity() {
    let data: Vec<u8> = (0..=255).cycle().take(10_000).collect();
    let mut c = libdeflater::Compressor::new(libdeflater::CompressionLvl::new(6).unwrap());
    let bound = c.deflate_compress_bound(data.len());
    let mut compressed = vec![0u8; bound];
    let csize = c.deflate_compress(&data, &mut compressed).unwrap();

    // Small capacity to exercise compaction and re-entry
    let mut dec = StreamDecompressor::deflate(&compressed[..csize], 512);
    let output = stream_decompress_all(&mut dec).unwrap();
    assert_eq!(output, data);
}

#[test]
fn test_stream_parity_with_whole_buffer() {
    let data: Vec<u8> = (0..=255).cycle().take(100_000).collect();
    for level in [1, 6, 12] {
        let mut c =
            libdeflater::Compressor::new(libdeflater::CompressionLvl::new(level).unwrap());
        let bound = c.deflate_compress_bound(data.len());
        let mut compressed = vec![0u8; bound];
        let csize = c.deflate_compress(&data, &mut compressed).unwrap();

        let mut d = Decompressor::new();
        let mut wb_output = vec![0u8; data.len()];
        let wb_size = d
            .deflate_decompress(&compressed[..csize], &mut wb_output, Unstoppable)
            .unwrap()
            .output_written;

        let mut dec = StreamDecompressor::deflate(&compressed[..csize], 4096);
        let stream_output = stream_decompress_all(&mut dec).unwrap();

        assert_eq!(wb_size, stream_output.len(), "level {level}: size mismatch");
        assert_eq!(
            &wb_output[..wb_size],
            &stream_output,
            "level {level}: content mismatch"
        );
    }
}

#[test]
fn test_stream_empty() {
    let mut c = libdeflater::Compressor::new(libdeflater::CompressionLvl::new(1).unwrap());
    let bound = c.deflate_compress_bound(0);
    let mut compressed = vec![0u8; bound];
    let csize = c.deflate_compress(&[], &mut compressed).unwrap();

    let mut dec = StreamDecompressor::deflate(&compressed[..csize], 1024);
    let output = stream_decompress_all(&mut dec).unwrap();
    assert!(output.is_empty());
}

#[test]
fn test_stream_all_zeros() {
    let data = vec![0u8; 100_000];
    let mut c = libdeflater::Compressor::new(libdeflater::CompressionLvl::new(6).unwrap());
    let bound = c.deflate_compress_bound(data.len());
    let mut compressed = vec![0u8; bound];
    let csize = c.deflate_compress(&data, &mut compressed).unwrap();

    let mut dec = StreamDecompressor::deflate(&compressed[..csize], 8192);
    let output = stream_decompress_all(&mut dec).unwrap();
    assert_eq!(output.len(), data.len());
    assert_eq!(output, data);
}

/// Custom InputSource that yields at most `chunk_size` bytes per fill_buf call.
struct ChunkedSource<'a> {
    data: &'a [u8],
    chunk_size: usize,
}

impl InputSource for ChunkedSource<'_> {
    type Error = core::convert::Infallible;

    fn fill_buf(&mut self) -> Result<&[u8], core::convert::Infallible> {
        let n = self.data.len().min(self.chunk_size);
        Ok(&self.data[..n])
    }

    fn consume(&mut self, n: usize) {
        self.data = &self.data[n..];
    }
}

#[test]
fn test_stream_chunk_stress_1byte() {
    // 1-byte-at-a-time input source — exercises staging buffer refill heavily
    let data: Vec<u8> = (0..=255).cycle().take(5_000).collect();
    for level in [1, 6, 12] {
        let mut c =
            libdeflater::Compressor::new(libdeflater::CompressionLvl::new(level).unwrap());

        for format in ["deflate", "zlib", "gzip"] {
            let (compressed, csize) = match format {
                "deflate" => {
                    let bound = c.deflate_compress_bound(data.len());
                    let mut buf = vec![0u8; bound];
                    let n = c.deflate_compress(&data, &mut buf).unwrap();
                    (buf, n)
                }
                "zlib" => {
                    let bound = c.zlib_compress_bound(data.len());
                    let mut buf = vec![0u8; bound];
                    let n = c.zlib_compress(&data, &mut buf).unwrap();
                    (buf, n)
                }
                "gzip" => {
                    let bound = c.gzip_compress_bound(data.len());
                    let mut buf = vec![0u8; bound];
                    let n = c.gzip_compress(&data, &mut buf).unwrap();
                    (buf, n)
                }
                _ => unreachable!(),
            };

            let source = ChunkedSource {
                data: &compressed[..csize],
                chunk_size: 1,
            };
            let mut dec = match format {
                "deflate" => StreamDecompressor::deflate(source, 1024),
                "zlib" => StreamDecompressor::zlib(source, 1024),
                "gzip" => StreamDecompressor::gzip(source, 1024),
                _ => unreachable!(),
            };
            let output = stream_decompress_all(&mut dec).unwrap();
            assert_eq!(output, data, "{format} L{level} 1-byte chunks");
        }
    }
}

#[test]
fn test_stream_chunk_stress_64byte() {
    // 64-byte chunks — typical small BufRead buffer
    let data: Vec<u8> = (0..=255).cycle().take(50_000).collect();
    let mut c = libdeflater::Compressor::new(libdeflater::CompressionLvl::new(6).unwrap());
    let bound = c.gzip_compress_bound(data.len());
    let mut compressed = vec![0u8; bound];
    let csize = c.gzip_compress(&data, &mut compressed).unwrap();

    let source = ChunkedSource {
        data: &compressed[..csize],
        chunk_size: 64,
    };
    let mut dec = StreamDecompressor::gzip(source, 4096);
    let output = stream_decompress_all(&mut dec).unwrap();
    assert_eq!(output, data);
}

#[test]
fn test_stream_scanline() {
    // Simulates PNG scanline-at-a-time decompression:
    // fill until we have row_stride bytes, process, advance, repeat.
    let row_width = 640;
    let row_stride = 1 + row_width; // filter byte + pixel data
    let height = 100;
    let data: Vec<u8> = (0..=255).cycle().take(row_stride * height).collect();

    let mut c = libdeflater::Compressor::new(libdeflater::CompressionLvl::new(6).unwrap());
    let bound = c.zlib_compress_bound(data.len());
    let mut compressed = vec![0u8; bound];
    let csize = c.zlib_compress(&data, &mut compressed).unwrap();

    let mut dec = StreamDecompressor::zlib(&compressed[..csize], 2 * row_stride);
    let mut output = Vec::new();

    for _row in 0..height {
        while dec.peek().len() < row_stride {
            dec.fill().unwrap();
        }
        let row_data = &dec.peek()[..row_stride];
        output.extend_from_slice(row_data);
        dec.advance(row_stride);
    }

    assert_eq!(output, data);
}

#[test]
fn test_stream_1mb_mixed() {
    // Exercises multi-block decompression with pseudo-random data that
    // triggers buffer-full compaction in the generic loop.
    let size = 1_000_000;
    let mut data = Vec::with_capacity(size);
    let mut state: u32 = 0xDEAD_BEEF;
    let mut i = 0;
    while i < size {
        state = state.wrapping_mul(1664525).wrapping_add(1013904223);
        let byte = (state >> 16) as u8;
        if i % 256 == 0 && i + 32 <= size {
            data.extend(core::iter::repeat_n(byte, 32));
            i += 32;
        } else {
            data.push(byte);
            i += 1;
        }
    }
    data.truncate(size);

    let mut c = libdeflater::Compressor::new(libdeflater::CompressionLvl::new(6).unwrap());
    let bound = c.deflate_compress_bound(data.len());
    let mut compressed = vec![0u8; bound];
    let csize = c.deflate_compress(&data, &mut compressed).unwrap();

    let mut dec = StreamDecompressor::deflate(&compressed[..csize], 64 * 1024);
    let mut output = Vec::new();
    while !dec.is_done() {
        dec.fill().unwrap();
        let chunk = dec.peek();
        output.extend_from_slice(chunk);
        let n = chunk.len();
        dec.advance(n);
    }
    assert_eq!(output.len(), data.len());
    assert_eq!(output, data);
}
// -----------------------------------------------------------------------
// skip_checksum tests (streaming)
// -----------------------------------------------------------------------

/// Corrupt Adler-32 in valid zlib stream: strict mode fails, skip mode succeeds.
#[test]
fn stream_zlib_skip_checksum_corrupt_adler() {
    let data: Vec<u8> = (0..=255).cycle().take(5000).collect();
    let mut c = libdeflater::Compressor::new(libdeflater::CompressionLvl::new(6).unwrap());
    let bound = c.zlib_compress_bound(data.len());
    let mut compressed = vec![0u8; bound];
    let csize = c.zlib_compress(&data, &mut compressed).unwrap();

    // Corrupt Adler-32 footer
    compressed[csize - 1] ^= 0xFF;

    // Strict: should fail
    let mut dec = StreamDecompressor::zlib(&compressed[..csize], 64 * 1024);
    let err = stream_decompress_all(&mut dec).unwrap_err();
    assert!(
        matches!(
            err,
            StreamError::Decompress(DecompressionError::ChecksumMismatch)
        ),
        "expected ChecksumMismatch, got: {err:?}"
    );

    // Skip: should succeed with checksum_matched = Some(false)
    let mut dec =
        StreamDecompressor::zlib(&compressed[..csize], 64 * 1024).with_skip_checksum(true);
    let output = stream_decompress_all(&mut dec).unwrap();
    assert_eq!(output.len(), data.len());
    assert_eq!(output, data);
    assert_eq!(dec.checksum_matched(), Some(false));
}

/// Corrupt CRC32 in valid gzip stream: strict mode fails, skip mode succeeds.
#[test]
fn stream_gzip_skip_checksum_corrupt_crc() {
    let data: Vec<u8> = (0..=255).cycle().take(5000).collect();
    let mut c = libdeflater::Compressor::new(libdeflater::CompressionLvl::new(6).unwrap());
    let bound = c.gzip_compress_bound(data.len());
    let mut compressed = vec![0u8; bound];
    let csize = c.gzip_compress(&data, &mut compressed).unwrap();

    // Corrupt CRC32
    compressed[csize - 8] ^= 0xFF;

    // Strict: should fail
    let mut dec = StreamDecompressor::gzip(&compressed[..csize], 64 * 1024);
    let err = stream_decompress_all(&mut dec).unwrap_err();
    assert!(
        matches!(
            err,
            StreamError::Decompress(DecompressionError::ChecksumMismatch)
        ),
        "expected ChecksumMismatch, got: {err:?}"
    );

    // Skip: should succeed
    let mut dec =
        StreamDecompressor::gzip(&compressed[..csize], 64 * 1024).with_skip_checksum(true);
    let output = stream_decompress_all(&mut dec).unwrap();
    assert_eq!(output.len(), data.len());
    assert_eq!(output, data);
    assert_eq!(dec.checksum_matched(), Some(false));
}

/// Valid zlib stream with skip_checksum: checksum_matched() == Some(true).
#[test]
fn stream_zlib_skip_checksum_valid_reports_true() {
    let data = b"hello stream skip_checksum test";
    let mut c = libdeflater::Compressor::new(libdeflater::CompressionLvl::new(6).unwrap());
    let bound = c.zlib_compress_bound(data.len());
    let mut compressed = vec![0u8; bound];
    let csize = c.zlib_compress(data, &mut compressed).unwrap();

    let mut dec =
        StreamDecompressor::zlib(&compressed[..csize], 64 * 1024).with_skip_checksum(true);
    let output = stream_decompress_all(&mut dec).unwrap();
    assert_eq!(&output, data);
    assert_eq!(dec.checksum_matched(), Some(true));
}

/// checksum_matched is None for raw DEFLATE streams (no wrapper checksum).
#[test]
fn stream_deflate_checksum_matched_is_none() {
    let data = b"raw deflate stream test";
    let mut c = libdeflater::Compressor::new(libdeflater::CompressionLvl::new(6).unwrap());
    let bound = c.deflate_compress_bound(data.len());
    let mut compressed = vec![0u8; bound];
    let csize = c.deflate_compress(data, &mut compressed).unwrap();

    let mut dec =
        StreamDecompressor::deflate(&compressed[..csize], 64 * 1024).with_skip_checksum(true);
    let output = stream_decompress_all(&mut dec).unwrap();
    assert_eq!(&output, data);
    assert_eq!(dec.checksum_matched(), None);
}

/// A block with the static codes that starts with a match.
const MATCH_FIRST: [u8; 3] = [0x03, 0x02, 0x00];

#[test]
fn a_match_before_any_output_is_bad() {
    let mut dec = StreamDecompressor::deflate(&MATCH_FIRST[..], 64);
    assert!(matches!(
        dec.fill(),
        Err(StreamError::Decompress(DecompressionError::BadData))
    ));
    let mut whole = [7u8; 16];
    assert!(matches!(
        Decompressor::new().deflate_decompress(&MATCH_FIRST, &mut whole, Unstoppable),
        Err(DecompressionError::BadData)
    ));
    assert_eq!(whole, [7u8; 16]);
}

#[test]
fn a_reset_decompressor_knows_nothing_of_the_stream_before() {
    let stored = [1u8, 3, 0, 252, 255, b'a', b'b', b'c'];
    let mut dec = StreamDecompressor::deflate(&stored[..], 64);
    assert_eq!(stream_decompress_all(&mut dec).unwrap(), b"abc");
    dec.reset(&MATCH_FIRST[..]);
    assert!(matches!(
        dec.fill(),
        Err(StreamError::Decompress(DecompressionError::BadData))
    ));
    dec.reset(&stored[..]);
    assert_eq!(stream_decompress_all(&mut dec).unwrap(), b"abc");
}

#[test]
fn filling_again_changes_nothing_when_full_or_done() {
    let stored = [1u8, 6, 0, 249, 255, b'a', b'b', b'c', b'd', b'e', b'f'];
    let mut dec = StreamDecompressor::deflate(&stored[..], 4);
    while dec.peek().len() < 4 {
        dec.fill().unwrap();
    }
    assert_eq!(dec.fill().unwrap(), b"abcd");
    dec.advance(4);
    while !dec.is_done() {
        dec.fill().unwrap();
    }
    assert_eq!(dec.fill().unwrap(), b"ef");
    assert_eq!(dec.fill().unwrap(), b"ef");
}

#[test]
fn what_was_decoded_before_an_error_stays_in_the_output() {
    // A stored block that is not the last one, and a block of an unknown kind.
    let bad = [0u8, 2, 0, 253, 255, b'x', b'y', 7];
    let mut out = [9u8; 5];
    assert!(matches!(
        Decompressor::new().deflate_decompress(&bad, &mut out, Unstoppable),
        Err(DecompressionError::BadData)
    ));
    assert_eq!(&out, b"xy\x09\x09\x09");
}

#[test]
fn a_refused_checksum_is_no_verdict() {
    let data = vec![5u8; 3000];
    let mut stream = zenflate::zlib_compress(&data, zenflate::CompressionLevel::new(9)).unwrap();
    let last = stream.len() - 1;
    stream[last] ^= 1;
    let mut dec = StreamDecompressor::zlib(&stream[..], 64);
    let mut out = Vec::new();
    let e = loop {
        match dec.fill() {
            Ok(_) => {}
            Err(e) => break e,
        }
        out.extend_from_slice(dec.peek());
        let n = dec.peek().len();
        dec.advance(n);
    };
    out.extend_from_slice(dec.peek());
    assert!(matches!(e, StreamError::Decompress(DecompressionError::ChecksumMismatch)));
    assert_eq!(out, data);
    assert!(!dec.is_done());
    assert_eq!(dec.checksum_matched(), None);
}

#[test]
fn a_cut_stream_gives_what_is_there() {
    // A stored block of six bytes, four of which are there
    let stream = [1u8, 6, 0, 249, 255, 10, 20, 30, 40];
    for capacity in [1usize, 3, 64] {
        let mut dec = StreamDecompressor::deflate(&stream[..], capacity);
        let mut out = Vec::new();
        loop {
            let r = dec.fill().is_ok();
            out.extend_from_slice(dec.peek());
            let n = dec.peek().len();
            dec.advance(n);
            if !r {
                break;
            }
        }
        assert_eq!(out, [10, 20, 30, 40]);
        assert!(matches!(
            dec.fill(),
            Err(StreamError::Decompress(DecompressionError::BadData))
        ));
    }
}
