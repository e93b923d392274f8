//! Compression at all levels, read back here and by another library.

use zenflate::{CompressionLevel, Compressor, Decompressor, Unstoppable};

#[test]
fn test_compress_level0_empty() {
    let mut c = Compressor::new(CompressionLevel::none());
    let mut output = vec![0u8; 100];
    let size = c
        .deflate_compress(&[], &mut output, Unstoppable)
        .unwrap();
    assert_eq!(size, 5);

    // Decompress with our own decompressor
    let mut d = Decompressor::new();
    let mut decompressed = vec![0u8; 0];
    let dsize = d
        .deflate_decompress(&output[..size], &mut decompressed, Unstoppable)
        .unwrap()
        .output_written;
    assert_eq!(dsize, 0);
}

#[test]
fn test_compress_level0_roundtrip() {
    let data = b"Hello, World! This is a test of uncompressed DEFLATE blocks.";
    let mut c = Compressor::new(CompressionLevel::none());
    let bound = Compressor::deflate_compress_bound(data.len());
    let mut compressed = vec![0u8; bound];
    let csize = c
        .deflate_compress(data, &mut compressed, Unstoppable)
        .unwrap();

    let mut d = Decompressor::new();
    let mut decompressed = vec![0u8; data.len()];
    let dsize = d
        .deflate_decompress(&compressed[..csize], &mut decompressed, Unstoppable)
        .unwrap()
        .output_written;
    assert_eq!(&decompressed[..dsize], &data[..]);
}

#[test]
fn test_compress_level0_large() {
    let data: Vec<u8> = (0..=255).cycle().take(200_000).collect();
    let mut c = Compressor::new(CompressionLevel::none());
    let bound = Compressor::deflate_compress_bound(data.len());
    let mut compressed = vec![0u8; bound];
    let csize = c
        .deflate_compress(&data, &mut compressed, Unstoppable)
        .unwrap();

    let mut d = Decompressor::new();
    let mut decompressed = vec![0u8; data.len()];
    let dsize = d
        .deflate_decompress(&compressed[..csize], &mut decompressed, Unstoppable)
        .unwrap()
        .output_written;
    assert_eq!(&decompressed[..dsize], &data[..]);
}

#[test]
fn test_compress_literals_roundtrip() {
    // Test the literal-only compressor at level 6 (no matchfinding yet)
    let data = b"Hello, World! This is a test of literal-only DEFLATE compression.";
    let mut c = Compressor::new(CompressionLevel::balanced());
    let bound = Compressor::deflate_compress_bound(data.len());
    let mut compressed = vec![0u8; bound];
    let csize = c
        .deflate_compress(data, &mut compressed, Unstoppable)
        .unwrap();

    let mut d = Decompressor::new();
    let mut decompressed = vec![0u8; data.len()];
    let dsize = d
        .deflate_decompress(&compressed[..csize], &mut decompressed, Unstoppable)
        .unwrap()
        .output_written;
    assert_eq!(&decompressed[..dsize], &data[..]);
}

#[test]
fn test_compress_literals_large() {
    let data: Vec<u8> = (0..=255).cycle().take(100_000).collect();
    let mut c = Compressor::new(CompressionLevel::balanced());
    let bound = Compressor::deflate_compress_bound(data.len());
    let mut compressed = vec![0u8; bound];
    let csize = c
        .deflate_compress(&data, &mut compressed, Unstoppable)
        .unwrap();

    // Verify with libdeflater
    let mut d = libdeflater::Decompressor::new();
    let mut decompressed = vec![0u8; data.len()];
    let dsize = d
        .deflate_decompress(&compressed[..csize], &mut decompressed)
        .unwrap();
    assert_eq!(&decompressed[..dsize], &data[..]);
}

#[test]
fn test_compress_zlib_roundtrip() {
    let data = b"Test zlib compression roundtrip!";
    let mut c = Compressor::new(CompressionLevel::balanced());
    let bound = Compressor::zlib_compress_bound(data.len());
    let mut compressed = vec![0u8; bound];
    let csize = c
        .zlib_compress(data, &mut compressed, Unstoppable)
        .unwrap();

    let mut d = Decompressor::new();
    let mut decompressed = vec![0u8; data.len()];
    let dsize = d
        .zlib_decompress(&compressed[..csize], &mut decompressed, Unstoppable)
        .unwrap()
        .output_written;
    assert_eq!(&decompressed[..dsize], &data[..]);
}

#[test]
fn test_compress_gzip_roundtrip() {
    let data = b"Test gzip compression roundtrip!";
    let mut c = Compressor::new(CompressionLevel::balanced());
    let bound = Compressor::gzip_compress_bound(data.len());
    let mut compressed = vec![0u8; bound];
    let csize = c
        .gzip_compress(data, &mut compressed, Unstoppable)
        .unwrap();

    let mut d = Decompressor::new();
    let mut decompressed = vec![0u8; data.len()];
    let dsize = d
        .gzip_decompress(&compressed[..csize], &mut decompressed, Unstoppable)
        .unwrap()
        .output_written;
    assert_eq!(&decompressed[..dsize], &data[..]);
}

#[test]
fn test_cross_decompress_libdeflater() {
    // Compress with zenflate, decompress with libdeflater
    let data: Vec<u8> = (0..=255).cycle().take(50_000).collect();
    let mut c = Compressor::new(CompressionLevel::balanced());
    let bound = Compressor::deflate_compress_bound(data.len());
    let mut compressed = vec![0u8; bound];
    let csize = c
        .deflate_compress(&data, &mut compressed, Unstoppable)
        .unwrap();

    let mut d = libdeflater::Decompressor::new();
    let mut decompressed = vec![0u8; data.len()];
    let dsize = d
        .deflate_decompress(&compressed[..csize], &mut decompressed)
        .unwrap();
    assert_eq!(&decompressed[..dsize], &data[..]);
}

/// Helper: compress with zenflate, decompress with both zenflate and libdeflater.
fn roundtrip_verify(data: &[u8], level: u32) {
    let mut c = Compressor::new(CompressionLevel::new(level));
    let bound = Compressor::deflate_compress_bound(data.len());
    let mut compressed = vec![0u8; bound];
    let csize = c
        .deflate_compress(data, &mut compressed, Unstoppable)
        .unwrap_or_else(|e| panic!("level {level}: compress failed: {e:?}"));

    // Verify with our own decompressor
    let mut d = Decompressor::new();
    let mut decompressed = vec![0u8; data.len()];
    let dsize = d
        .deflate_decompress(&compressed[..csize], &mut decompressed, Unstoppable)
        .unwrap_or_else(|e| panic!("level {level}: own decompress failed: {e:?}"))
        .output_written;
    assert_eq!(
        &decompressed[..dsize],
        data,
        "level {level}: own roundtrip mismatch"
    );

    // Verify with libdeflater
    {
        let mut ld = libdeflater::Decompressor::new();
        let mut ld_decompressed = vec![0u8; data.len()];
        let ld_dsize = ld
            .deflate_decompress(&compressed[..csize], &mut ld_decompressed)
            .unwrap_or_else(|e| panic!("level {level}: libdeflater decompress failed: {e:?}"));
        assert_eq!(
            &ld_decompressed[..ld_dsize],
            data,
            "level {level}: libdeflater roundtrip mismatch"
        );
    }
}

#[test]
fn test_fastest_small() {
    roundtrip_verify(b"Hello, World!", 1);
}

#[test]
fn test_fastest_repetitive() {
    let data: Vec<u8> = b"abcabcabcabcabcabcabc".repeat(100);
    roundtrip_verify(&data, 1);
}

#[test]
fn test_fastest_zeros() {
    let data = vec![0u8; 100_000];
    roundtrip_verify(&data, 1);
}

#[test]
fn test_fastest_sequential() {
    let data: Vec<u8> = (0..=255u8).cycle().take(100_000).collect();
    roundtrip_verify(&data, 1);
}

#[test]
fn test_fastest_large() {
    // Mix of repetitive and varied data
    let mut data = Vec::with_capacity(500_000);
    for i in 0..500_000u32 {
        data.push(((i * 7 + 13) % 256) as u8);
    }
    roundtrip_verify(&data, 1);
}

#[test]
fn test_fastest_actually_compresses() {
    // Verify level 1 actually produces smaller output than literal-only
    let data = vec![0u8; 10_000];
    let mut c = Compressor::new(CompressionLevel::fastest());
    let bound = Compressor::deflate_compress_bound(data.len());
    let mut compressed = vec![0u8; bound];
    let csize = c
        .deflate_compress(&data, &mut compressed, Unstoppable)
        .unwrap();
    // All zeros should compress very well
    assert!(
        csize < data.len() / 10,
        "Level 1 should compress all-zeros well: {csize} >= {}",
        data.len() / 10
    );
}

#[test]
fn test_fastest_cross_decompress_c() {
    // Compress with C libdeflate level 1, decompress with zenflate
    let data: Vec<u8> = (0..=255u8).cycle().take(50_000).collect();
    let mut lc = libdeflater::Compressor::new(libdeflater::CompressionLvl::new(1).unwrap());
    let bound = lc.deflate_compress_bound(data.len());
    let mut c_compressed = vec![0u8; bound];
    let c_csize = lc.deflate_compress(&data, &mut c_compressed).unwrap();

    let mut d = Decompressor::new();
    let mut decompressed = vec![0u8; data.len()];
    let dsize = d
        .deflate_decompress(
            &c_compressed[..c_csize],
            &mut decompressed,
            Unstoppable,
        )
        .unwrap()
        .output_written;
    assert_eq!(&decompressed[..dsize], &data[..]);
}

#[test]
fn test_compress_bound() {
    // Empty input
    assert_eq!(Compressor::deflate_compress_bound(0), 5);
    // Small input
    assert_eq!(Compressor::deflate_compress_bound(100), 105);
    // Exactly MIN_BLOCK_LENGTH
    assert_eq!(Compressor::deflate_compress_bound(5000), 5005);
    // Large input: 1MB
    let bound = Compressor::deflate_compress_bound(1_000_000);
    assert!(bound >= 1_000_000);
    assert!(bound < 1_002_000); // shouldn't be too much larger
}

// ---- Greedy strategy tests (levels 2-4) ----

#[test]
fn test_greedy_small() {
    for level in 2..=4 {
        roundtrip_verify(b"Hello, World!", level);
    }
}

#[test]
fn test_greedy_repetitive() {
    let data: Vec<u8> = b"abcabcabcabcabcabcabc".repeat(100);
    for level in 2..=4 {
        roundtrip_verify(&data, level);
    }
}

#[test]
fn test_greedy_zeros() {
    let data = vec![0u8; 100_000];
    for level in 2..=4 {
        roundtrip_verify(&data, level);
    }
}

#[test]
fn test_greedy_sequential() {
    let data: Vec<u8> = (0..=255u8).cycle().take(100_000).collect();
    for level in 2..=4 {
        roundtrip_verify(&data, level);
    }
}

#[test]
fn test_greedy_large() {
    let mut data = Vec::with_capacity(500_000);
    for i in 0..500_000u32 {
        data.push(((i * 7 + 13) % 256) as u8);
    }
    for level in 2..=4 {
        roundtrip_verify(&data, level);
    }
}

// ---- Lazy strategy tests (levels 5-7) ----

#[test]
fn test_lazy_small() {
    for level in 5..=7 {
        roundtrip_verify(b"Hello, World!", level);
    }
}

#[test]
fn test_lazy_repetitive() {
    let data: Vec<u8> = b"abcabcabcabcabcabcabc".repeat(100);
    for level in 5..=7 {
        roundtrip_verify(&data, level);
    }
}

#[test]
fn test_lazy_zeros() {
    let data = vec![0u8; 100_000];
    for level in 5..=7 {
        roundtrip_verify(&data, level);
    }
}

#[test]
fn test_lazy_sequential() {
    let data: Vec<u8> = (0..=255u8).cycle().take(100_000).collect();
    for level in 5..=7 {
        roundtrip_verify(&data, level);
    }
}

#[test]
fn test_lazy_large() {
    let mut data = Vec::with_capacity(500_000);
    for i in 0..500_000u32 {
        data.push(((i * 7 + 13) % 256) as u8);
    }
    for level in 5..=7 {
        roundtrip_verify(&data, level);
    }
}

// ---- Lazy2 strategy tests (levels 8-9) ----

#[test]
fn test_lazy2_small() {
    for level in 8..=9 {
        roundtrip_verify(b"Hello, World!", level);
    }
}

#[test]
fn test_lazy2_repetitive() {
    let data: Vec<u8> = b"abcabcabcabcabcabcabc".repeat(100);
    for level in 8..=9 {
        roundtrip_verify(&data, level);
    }
}

#[test]
fn test_lazy2_zeros() {
    let data = vec![0u8; 100_000];
    for level in 8..=9 {
        roundtrip_verify(&data, level);
    }
}

#[test]
fn test_lazy2_sequential() {
    let data: Vec<u8> = (0..=255u8).cycle().take(100_000).collect();
    for level in 8..=9 {
        roundtrip_verify(&data, level);
    }
}

#[test]
fn test_lazy2_large() {
    let mut data = Vec::with_capacity(500_000);
    for i in 0..500_000u32 {
        data.push(((i * 7 + 13) % 256) as u8);
    }
    for level in 8..=9 {
        roundtrip_verify(&data, level);
    }
}

// ---- Near-optimal strategy tests (levels 10-12) ----

#[test]
fn test_near_optimal_small() {
    for level in 10..=12 {
        roundtrip_verify(b"Hello, World!", level);
    }
}

#[test]
fn test_near_optimal_repetitive() {
    let data: Vec<u8> = b"abcabcabcabcabcabcabc".repeat(100);
    for level in 10..=12 {
        roundtrip_verify(&data, level);
    }
}

#[test]
fn test_near_optimal_zeros() {
    let data = vec![0u8; 100_000];
    for level in 10..=12 {
        roundtrip_verify(&data, level);
    }
}

#[test]
fn test_near_optimal_sequential() {
    let data: Vec<u8> = (0..=255u8).cycle().take(100_000).collect();
    for level in 10..=12 {
        roundtrip_verify(&data, level);
    }
}

#[test]
fn test_near_optimal_large() {
    let mut data = Vec::with_capacity(500_000);
    for i in 0..500_000u32 {
        data.push(((i * 7 + 13) % 256) as u8);
    }
    for level in 10..=12 {
        roundtrip_verify(&data, level);
    }
}

// ---- Cross-level tests ----

#[test]
fn test_all_levels_roundtrip() {
    // Test all effort levels 0-30 with the same data
    let data: Vec<u8> = (0..=255u8).cycle().take(50_000).collect();
    for effort in 0..=30 {
        roundtrip_verify(&data, effort);
    }
}

#[test]
fn test_libdeflate_compat_roundtrip() {
    // Test all libdeflate() levels 0-12 roundtrip correctly
    let data: Vec<u8> = (0..=255u8).cycle().take(50_000).collect();
    for level in 0..=12 {
        let mut c = Compressor::new(CompressionLevel::libdeflate(level));
        let bound = Compressor::deflate_compress_bound(data.len());
        let mut compressed = vec![0u8; bound];
        let csize = c
            .deflate_compress(&data, &mut compressed, Unstoppable)
            .unwrap_or_else(|e| panic!("libdeflate({level}): compress failed: {e:?}"));

        let mut d = Decompressor::new();
        let mut decompressed = vec![0u8; data.len()];
        let dsize = d
            .deflate_decompress(&compressed[..csize], &mut decompressed, Unstoppable)
            .unwrap_or_else(|e| panic!("libdeflate({level}): decompress failed: {e:?}"))
            .output_written;
        assert_eq!(
            &decompressed[..dsize],
            &data[..],
            "libdeflate({level}): roundtrip mismatch"
        );
    }
}

#[test]
fn test_all_levels_cross_decompress_c() {
    // Compress with C libdeflate at each level, decompress with zenflate
    let data: Vec<u8> = (0..=255u8).cycle().take(50_000).collect();
    for level in 1..=12 {
        let mut lc =
            libdeflater::Compressor::new(libdeflater::CompressionLvl::new(level).unwrap());
        let bound = lc.deflate_compress_bound(data.len());
        let mut c_compressed = vec![0u8; bound];
        let c_csize = lc.deflate_compress(&data, &mut c_compressed).unwrap();

        let mut d = Decompressor::new();
        let mut decompressed = vec![0u8; data.len()];
        let dsize = d
            .deflate_decompress(
                &c_compressed[..c_csize],
                &mut decompressed,
                Unstoppable,
            )
            .unwrap_or_else(|e| {
                panic!("level {level}: zenflate decompress of C output failed: {e:?}")
            })
            .output_written;
        assert_eq!(
            &decompressed[..dsize],
            &data[..],
            "level {level}: C→Rust cross-decompression mismatch"
        );
    }
}

#[test]
fn test_compression_improves_with_level() {
    // Higher levels should generally compress at least as well (or better)
    let data = vec![0u8; 50_000];
    let mut prev_size = None;
    for level in 1..=12 {
        let mut c = Compressor::new(CompressionLevel::new(level));
        let bound = Compressor::deflate_compress_bound(data.len());
        let mut compressed = vec![0u8; bound];
        let csize = c
            .deflate_compress(&data, &mut compressed, Unstoppable)
            .unwrap();
        // Allow some tolerance — strategy transitions might not always improve
        if let Some(prev) = prev_size {
            assert!(
                csize <= prev + 100,
                "level {level} ({csize}) much worse than level {} ({prev})",
                level - 1
            );
        }
        prev_size = Some(csize);
    }
}

#[test]
fn test_zlib_all_levels() {
    let data =
        b"Test zlib compression at all levels with sufficient input data for matchfinding.";
    let data = data.repeat(50);
    for level in 0..=12 {
        let mut c = Compressor::new(CompressionLevel::new(level));
        let bound = Compressor::zlib_compress_bound(data.len());
        let mut compressed = vec![0u8; bound];
        let csize = c
            .zlib_compress(&data, &mut compressed, Unstoppable)
            .unwrap_or_else(|e| panic!("level {level}: zlib compress failed: {e:?}"));

        let mut d = Decompressor::new();
        let mut decompressed = vec![0u8; data.len()];
        let dsize = d
            .zlib_decompress(&compressed[..csize], &mut decompressed, Unstoppable)
            .unwrap_or_else(|e| panic!("level {level}: zlib decompress failed: {e:?}"))
            .output_written;
        assert_eq!(
            &decompressed[..dsize],
            &data[..],
            "level {level}: zlib roundtrip mismatch"
        );
    }
}

#[test]
fn test_gzip_all_levels() {
    let data =
        b"Test gzip compression at all levels with sufficient input data for matchfinding.";
    let data = data.repeat(50);
    for level in 0..=12 {
        let mut c = Compressor::new(CompressionLevel::new(level));
        let bound = Compressor::gzip_compress_bound(data.len());
        let mut compressed = vec![0u8; bound];
        let csize = c
            .gzip_compress(&data, &mut compressed, Unstoppable)
            .unwrap_or_else(|e| panic!("level {level}: gzip compress failed: {e:?}"));

        let mut d = Decompressor::new();
        let mut decompressed = vec![0u8; data.len()];
        let dsize = d
            .gzip_decompress(&compressed[..csize], &mut decompressed, Unstoppable)
            .unwrap_or_else(|e| panic!("level {level}: gzip decompress failed: {e:?}"))
            .output_written;
        assert_eq!(
            &decompressed[..dsize],
            &data[..],
            "level {level}: gzip roundtrip mismatch"
        );
    }
}

#[test]
fn test_window_boundary_crossing() {
    // Data larger than the 32K matchfinder window to test window sliding
    let mut data = Vec::with_capacity(100_000);
    // Create data with repeating patterns at distances > 32K
    for i in 0..100_000u32 {
        data.push((i % 251) as u8); // prime modulus for less obvious patterns
    }
    for level in 1..=12 {
        roundtrip_verify(&data, level);
    }
}

#[test]
fn test_block_splitting() {
    // Data with distinct distributions to trigger block splitting
    let mut data = Vec::with_capacity(100_000);
    // First half: low entropy (mostly zeros)
    data.extend(core::iter::repeat_n(0u8, 50_000));
    // Second half: high entropy (sequential)
    data.extend((0..=255u8).cycle().take(50_000));
    for level in 2..=12 {
        roundtrip_verify(&data, level);
    }
}

#[test]
fn test_short_inputs() {
    // Test various short inputs that exercise edge cases
    for level in 1..=12 {
        roundtrip_verify(b"", level);
        roundtrip_verify(b"a", level);
        roundtrip_verify(b"ab", level);
        roundtrip_verify(b"abc", level);
        roundtrip_verify(b"abcd", level);
        roundtrip_verify(b"Hello", level);
        roundtrip_verify(&[0u8; 100], level);
    }
}

/// Verify parallel gzip compression produces valid output by decompressing
/// and comparing to original input.
fn parallel_roundtrip(data: &[u8], level: u32, num_threads: usize) {
    let level = CompressionLevel::new(level);
    let bound = Compressor::gzip_compress_bound(data.len()) + num_threads * 5;
    let mut compressed = vec![0u8; bound];
    let mut compressor = Compressor::new(level);
    let csize = compressor
        .gzip_compress_parallel(data, &mut compressed, num_threads, Unstoppable)
        .unwrap();

    let mut decompressor = Decompressor::new();
    let mut decompressed = vec![0u8; data.len()];
    let dsize = decompressor
        .gzip_decompress(&compressed[..csize], &mut decompressed, Unstoppable)
        .unwrap()
        .output_written;
    assert_eq!(dsize, data.len(), "decompressed size mismatch");
    assert_eq!(&decompressed[..dsize], data, "data mismatch");
}

#[test]
fn test_parallel_gzip_level1() {
    // 256KB of mixed data — enough for 4 chunks
    let data = make_mixed_data(256 * 1024);
    parallel_roundtrip(&data, 1, 4);
}

#[test]
fn test_parallel_gzip_level6() {
    let data = make_mixed_data(256 * 1024);
    parallel_roundtrip(&data, 6, 4);
}

#[test]
fn test_parallel_gzip_level12() {
    let data = make_mixed_data(256 * 1024);
    parallel_roundtrip(&data, 12, 4);
}

#[test]
fn test_parallel_gzip_all_levels() {
    let data = make_mixed_data(128 * 1024);
    for level in 0..=12 {
        for threads in [1, 2, 4] {
            parallel_roundtrip(&data, level, threads);
        }
    }
}

#[test]
fn test_parallel_gzip_zeros() {
    let data = vec![0u8; 256 * 1024];
    parallel_roundtrip(&data, 1, 4);
    parallel_roundtrip(&data, 6, 4);
    parallel_roundtrip(&data, 12, 4);
}

#[test]
fn test_parallel_gzip_sequential() {
    let data: Vec<u8> = (0..256 * 1024).map(|i| (i % 256) as u8).collect();
    parallel_roundtrip(&data, 1, 4);
    parallel_roundtrip(&data, 6, 4);
    parallel_roundtrip(&data, 12, 4);
}

#[test]
fn test_parallel_gzip_small_input() {
    // Small input should fall back to single-threaded
    let data = b"Hello, World!";
    parallel_roundtrip(data, 6, 4);
}

#[test]
fn test_parallel_gzip_matches_single_threaded_crc() {
    // Verify the CRC-32 in the parallel output is correct by having
    // libdeflater (C) decompress it.
    let data = make_mixed_data(256 * 1024);
    let level = CompressionLevel::new(6);
    let bound = Compressor::gzip_compress_bound(data.len()) + 4 * 5;
    let mut compressed = vec![0u8; bound];
    let mut compressor = Compressor::new(level);
    let csize = compressor
        .gzip_compress_parallel(&data, &mut compressed, 4, Unstoppable)
        .unwrap();

    // Decompress with C library to validate the gzip stream.
    let mut decompressed = vec![0u8; data.len()];
    let dsize = libdeflater::Decompressor::new()
        .gzip_decompress(&compressed[..csize], &mut decompressed)
        .unwrap();
    assert_eq!(dsize, data.len());
    assert_eq!(&decompressed[..dsize], &data[..]);
}

/// Generate mixed data that's representative of real workloads.
fn make_mixed_data(len: usize) -> Vec<u8> {
    let mut data = vec![0u8; len];
    // Mix of patterns: sequential, repeated, random-ish
    for (i, byte) in data.iter_mut().enumerate() {
        *byte = match i % 1024 {
            0..=255 => (i % 256) as u8,                    // sequential
            256..=511 => (i / 256 % 256) as u8,            // slow-changing
            512..=767 => b"Hello, World! "[i % 14],        // repeated text
            _ => (i.wrapping_mul(2654435761) >> 16) as u8, // pseudo-random
        };
    }
    data
}

#[test]
fn test_snapshot_restore_roundtrip() {
    // Compress two rows incrementally, then snapshot/restore/compress
    // and verify that restoring produces the same result as a fresh fork.
    let row1 = b"Hello, world! This is row one with some repetitive content content content.";
    let row2a = b"Row two variant A has different data patterns AAAA BBBB CCCC.";
    let row2b = b"Row two variant B has other patterns XXXX YYYY ZZZZ patterns.";

    let mut c = Compressor::new(CompressionLevel::new(15)); // Lazy
    let mut buf = Vec::with_capacity(row1.len() + row2a.len().max(row2b.len()));
    buf.extend_from_slice(row1);

    let mut out = vec![0u8; 4096];
    let size1 = c
        .deflate_compress_incremental(&buf, &mut out, false, Unstoppable)
        .unwrap();
    assert!(size1 > 0);

    // Snapshot after row 1
    let snap = c.snapshot();

    // Try variant A
    buf.extend_from_slice(row2a);
    let mut out_a = vec![0u8; 4096];
    let size_a = c
        .deflate_compress_incremental(&buf, &mut out_a, true, Unstoppable)
        .unwrap();

    // Restore and try variant B
    c.restore(snap);
    buf.truncate(row1.len());
    buf.extend_from_slice(row2b);
    let mut out_b = vec![0u8; 4096];
    let size_b = c
        .deflate_compress_incremental(&buf, &mut out_b, true, Unstoppable)
        .unwrap();

    // Both should produce valid output (different sizes expected)
    assert!(size_a > 0);
    assert!(size_b > 0);
    // The variants should generally produce different compressed sizes
    // (they have different data), but we just check both are valid.
}

#[test]
fn test_snapshot_restore_ht_strategy() {
    // Same test but with HtGreedy strategy (effort 10 maps to Greedy, use libdeflate L1)
    let row = b"Repetitive data for hash table matching matching matching matching.";

    let mut c = Compressor::new(CompressionLevel::libdeflate(1));
    let mut buf = Vec::from(&row[..]);
    let mut out = vec![0u8; 4096];

    let _size = c
        .deflate_compress_incremental(&buf, &mut out, false, Unstoppable)
        .unwrap();
    let snap = c.snapshot();

    // Try extending with more data
    buf.extend_from_slice(b"Extra data appended.");
    let mut out2 = vec![0u8; 4096];
    let size2 = c
        .deflate_compress_incremental(&buf, &mut out2, true, Unstoppable)
        .unwrap();
    assert!(size2 > 0);

    // Restore and try again with different data
    c.restore(snap);
    buf.truncate(row.len());
    buf.extend_from_slice(b"Different extension.");
    let mut out3 = vec![0u8; 4096];
    let size3 = c
        .deflate_compress_incremental(&buf, &mut out3, true, Unstoppable)
        .unwrap();
    assert!(size3 > 0);
}

#[test]
fn test_estimate_cost_incremental_basic() {
    let data = b"The quick brown fox jumps over the lazy dog. The quick brown fox jumps again.";
    let mut c = Compressor::new(CompressionLevel::new(15)); // Lazy

    let cost = c
        .deflate_estimate_cost_incremental(data, Unstoppable)
        .unwrap();
    // Cost should be positive and reasonable (less than 8 bits per byte)
    assert!(cost > 0, "cost should be positive");
    assert!(
        cost < data.len() as u64 * 9,
        "cost {cost} should be less than {}, 9 bits/byte",
        data.len() as u64 * 9
    );
}

#[test]
fn test_estimate_cost_ranking() {
    // Highly compressible data should have lower cost than random-like data
    let compressible = vec![b'A'; 200];
    let mixed: Vec<u8> = (0..200u8).collect();

    let mut c1 = Compressor::new(CompressionLevel::new(15));
    let cost_comp = c1
        .deflate_estimate_cost_incremental(&compressible, Unstoppable)
        .unwrap();

    let mut c2 = Compressor::new(CompressionLevel::new(15));
    let cost_mixed = c2
        .deflate_estimate_cost_incremental(&mixed, Unstoppable)
        .unwrap();

    assert!(
        cost_comp < cost_mixed,
        "compressible cost ({cost_comp}) should be less than mixed cost ({cost_mixed})"
    );
}

#[test]
fn test_estimate_cost_with_snapshot() {
    // Verify that snapshot/restore works correctly with cost estimation
    let row1 = b"Initial row of data for context building.";
    let row2a = vec![b'X'; 50]; // compressible
    let row2b: Vec<u8> = (0..50).collect(); // less compressible

    let mut c = Compressor::new(CompressionLevel::new(15));
    let mut buf = Vec::from(&row1[..]);

    // Build context
    let _cost1 = c
        .deflate_estimate_cost_incremental(&buf, Unstoppable)
        .unwrap();

    let snap = c.snapshot();

    // Estimate cost of variant A
    buf.extend_from_slice(&row2a);
    let cost_a = c
        .deflate_estimate_cost_incremental(&buf, Unstoppable)
        .unwrap();

    // Restore and estimate cost of variant B
    c.restore(snap);
    buf.truncate(row1.len());
    buf.extend_from_slice(&row2b);
    let cost_b = c
        .deflate_estimate_cost_incremental(&buf, Unstoppable)
        .unwrap();

    // Both costs should be positive
    assert!(cost_a > 0);
    assert!(cost_b > 0);
    // Repetitive 'X' data should be cheaper than sequential bytes
    assert!(
        cost_a < cost_b,
        "repetitive cost ({cost_a}) should be less than sequential cost ({cost_b})"
    );
}

#[test]
fn test_estimate_cost_greedy_strategy() {
    let data = b"Greedy strategy test data with some repetition repetition repetition.";
    let mut c = Compressor::new(CompressionLevel::new(10)); // Greedy

    let cost = c
        .deflate_estimate_cost_incremental(data, Unstoppable)
        .unwrap();
    assert!(cost > 0);
    assert!(cost < data.len() as u64 * 9);
}

#[test]
fn test_estimate_cost_ht_strategy() {
    let data = b"HtGreedy strategy test data with repetition repetition repetition.";
    let mut c = Compressor::new(CompressionLevel::libdeflate(1)); // HtGreedy

    let cost = c
        .deflate_estimate_cost_incremental(data, Unstoppable)
        .unwrap();
    assert!(cost > 0);
    assert!(cost < data.len() as u64 * 9);
}

#[test]
fn test_estimate_cost_unsupported_strategy() {
    // NearOptimal strategy should return an error
    let data = b"test";
    let mut c = Compressor::new(CompressionLevel::new(25)); // NearOptimal

    let result = c.deflate_estimate_cost_incremental(data, Unstoppable);
    assert!(result.is_err());
}

#[test]
fn test_snapshot_clone() {
    let mut c = Compressor::new(CompressionLevel::new(15));
    let data = b"Some data to build state.";
    let mut buf = Vec::from(&data[..]);
    let mut out = vec![0u8; 4096];
    let _ = c
        .deflate_compress_incremental(&buf, &mut out, false, Unstoppable)
        .unwrap();

    let snap = c.snapshot();
    let snap2 = snap.clone();

    // Both snapshots should restore to the same state
    buf.extend_from_slice(b"More data here.");

    c.restore(snap);
    let mut out1 = vec![0u8; 4096];
    let size1 = c
        .deflate_compress_incremental(&buf, &mut out1, true, Unstoppable)
        .unwrap();

    c.restore(snap2);
    let mut out2 = vec![0u8; 4096];
    let size2 = c
        .deflate_compress_incremental(&buf, &mut out2, true, Unstoppable)
        .unwrap();

    assert_eq!(size1, size2);
    assert_eq!(&out1[..size1], &out2[..size2]);
}
