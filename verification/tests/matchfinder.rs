//! Finding matches.

use zenflate::matchfinder::turbo::TurboMatchfinder;
use zenflate::matchfinder::{
    lz_extend, lz_hash, matchfinder_init, matchfinder_rebase, HashMatchfinder,
    MATCHFINDER_INITVAL, MATCHFINDER_WINDOW_SIZE,
};
use zenflate::{CompressionLevel, Compressor, Decompressor, Unstoppable};

#[test]
fn test_lz_hash_deterministic() {
    let h1 = lz_hash(0x12345678, 15);
    let h2 = lz_hash(0x12345678, 15);
    assert_eq!(h1, h2);
    assert!(h1 < (1 << 15));
}

#[test]
fn test_lz_hash_distribution() {
    // Different inputs should generally produce different hashes
    let h1 = lz_hash(0x00000000, 15);
    let h2 = lz_hash(0x00000001, 15);
    let h3 = lz_hash(0xFFFFFFFF, 15);
    assert_ne!(h1, h2);
    assert_ne!(h2, h3);
}

#[test]
fn test_lz_extend_identical() {
    let data = [1, 2, 3, 4, 5, 6, 7, 8, 9, 10];
    assert_eq!(lz_extend(&data, &data, 0, 10), 10);
}

#[test]
fn test_lz_extend_partial() {
    let a = [1, 2, 3, 4, 5, 6, 7, 8];
    let b = [1, 2, 3, 4, 0, 0, 0, 0];
    assert_eq!(lz_extend(&a, &b, 0, 8), 4);
}

#[test]
fn test_lz_extend_with_start() {
    let a = [0, 0, 1, 2, 3, 4, 5, 6, 7, 8];
    let b = [9, 9, 1, 2, 3, 4, 0, 0, 0, 0];
    assert_eq!(lz_extend(&a, &b, 2, 10), 6);
}

#[test]
fn test_matchfinder_init() {
    let mut data = [0i16; 16];
    matchfinder_init(&mut data);
    for &v in &data {
        assert_eq!(v, MATCHFINDER_INITVAL);
    }
}

/// Regression: compressing data that crosses the 32K window boundary
/// with patterns that cause skip_bytes to bail early (not enough trailing
/// bytes) left in_base_offset stale. The next longest_match call computed
/// cur_pos > WINDOW_SIZE, bypassing the `== WINDOW_SIZE` slide check.
///
/// Triggers index-out-of-bounds in hc.rs next_tab[cur_pos].
#[test]
fn hc_compress_across_window_boundary_no_panic() {

    // Build data slightly larger than MATCHFINDER_WINDOW_SIZE (32768).
    // Use repeating pattern to generate matches, with a unique suffix
    // to force the compressor past the window boundary.
    let window = MATCHFINDER_WINDOW_SIZE as usize;
    let mut data = Vec::with_capacity(window + 300);
    // Repeating 256-byte pattern fills most of the window
    let pattern: Vec<u8> = (0..=255u8).collect();
    while data.len() < window - 10 {
        data.extend_from_slice(&pattern);
    }
    // Add unique bytes near the boundary to create skip_bytes edge cases
    for i in 0..310u16 {
        data.push((i & 0xFF) as u8);
    }

    // Try all HC compression levels (1-9 use HC matchfinder)
    for level in 1..=9u32 {
        let mut compressor = Compressor::new(CompressionLevel::new(level));
        let bound = Compressor::zlib_compress_bound(data.len());
        let mut output = vec![0u8; bound];

        let result = compressor.zlib_compress(&data, &mut output, Unstoppable);
        assert!(
            result.is_ok(),
            "compression at level {level} should not panic or error"
        );

        // Verify roundtrip
        let compressed_len = result.unwrap();
        let mut decompressor = Decompressor::new();
        let mut decompressed = vec![0u8; data.len()];
        let dec_result = decompressor.zlib_decompress(
            &output[..compressed_len],
            &mut decompressed,
            Unstoppable,
        );
        assert!(
            dec_result.is_ok(),
            "decompression roundtrip at level {level}"
        );
        assert_eq!(&decompressed, &data, "data roundtrip at level {level}");
    }
}

/// Targeted regression: all-zeros input where matches of length 258 land
/// at position 32766 (= 127 * 258). When total input length is in
/// [33025, 33028], skip_bytes bails because count(257) + 5 > remaining,
/// leaving in_base_offset stale at 0. The next longest_match call has
/// cur_pos = 33024 > 32768, bypassing the `== 32768` slide check.
///
/// Panics with index-out-of-bounds on hc.rs next_tab[33024].
#[test]
fn hc_skip_bytes_bail_leaves_stale_base_offset() {

    // All-zeros: matches of max length (258) at positions 0, 258, ..., 32766.
    // At position 32766 with total_len=33025: skip_bytes bails because
    //   count(257) + 5 = 262 > in_end(33025) - in_next(32767) = 258
    // Then in_next = 33024, cur_pos = 33024 > 32768 → OOB.
    for total_len in [33025, 33026, 33027, 33028] {
        let data = vec![0u8; total_len];
        for level in 1..=9u32 {
            let mut compressor = Compressor::new(CompressionLevel::new(level));
            let bound = Compressor::zlib_compress_bound(data.len());
            let mut output = vec![0u8; bound];

            let result = compressor.zlib_compress(&data, &mut output, Unstoppable);
            assert!(
                result.is_ok(),
                "compression at level {level} with length {total_len} should not panic"
            );

            // Verify roundtrip
            let compressed_len = result.unwrap();
            let mut decompressor = Decompressor::new();
            let mut decompressed = vec![0u8; data.len()];
            let dec_result = decompressor.zlib_decompress(
                &output[..compressed_len],
                &mut decompressed,
                Unstoppable,
            );
            assert!(
                dec_result.is_ok(),
                "roundtrip at level {level} with length {total_len}"
            );
            assert_eq!(
                &decompressed, &data,
                "data mismatch at level {level} with length {total_len}"
            );
        }
    }
}

#[test]
fn test_matchfinder_rebase() {
    let mut data = [0i16, 100, -100, i16::MAX, i16::MIN, -32768];
    matchfinder_rebase(&mut data);
    // Positive values: v & !(v >> 15) = v, then | 0x8000 = v | -32768
    // For v=0: 0 & !0 = 0 | 0x8000 = -32768
    assert_eq!(data[0], i16::MIN);
    // For v=100: 100 & !0 = 100, 100 | 0x8000 = -32668
    assert_eq!(data[1], 100 | i16::MIN);
    // For v=-100: -100 >> 15 = -1 (all 1s), !(-1) = 0, -100 & 0 = 0, 0 | 0x8000 = -32768
    assert_eq!(data[2], i16::MIN);
    // For v=MAX: stays positive range with sign set
    assert_eq!(data[3], i16::MAX | i16::MIN); // = -1
    // For v=MIN: already negative → clamps to MIN
    assert_eq!(data[4], i16::MIN);
    assert_eq!(data[5], i16::MIN);
}

#[test]
fn skipping_to_the_end_changes_nothing() {
    let data = b"abcdabcdabcdabcd".repeat(4);
    for count in [0u32, 60, 32_769, 4_000_000_000] {
        let mut mf = TurboMatchfinder::new();
        let mut base = 0usize;
        let mut hash = 0u32;
        mf.skip_bytes(&data, &mut base, 0, 8, &mut hash);
        let mut other = mf.clone();
        let (mut base2, mut hash2) = (base, hash);
        mf.skip_bytes(&data, &mut base, 8, count, &mut hash);
        assert_eq!((base, hash), (base2, hash2));
        let r = mf.longest_match(&data, &mut base, 8, 20, 20, &mut hash);
        assert_eq!(r, other.longest_match(&data, &mut base2, 8, 20, 20, &mut hash2));
        assert!(r.0 >= 4);
    }
}
