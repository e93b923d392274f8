//! Checksums, on their own and against another library.

use zenflate::{adler32, crc32};

#[test]
fn adler32_test_initial_value() {
    assert_eq!(adler32(1, &[]), 1);
}

#[test]
fn test_single_byte() {
    assert_eq!(adler32(1, &[0]), (1 << 16) | 1);
    assert_eq!(adler32(1, &[1]), (2 << 16) | 2);
    assert_eq!(adler32(1, &[255]), (256 << 16) | 256);
}

#[test]
fn test_known_values() {
    let data = b"Hello World";
    let result = adler32(1, data);
    assert_eq!(result, libdeflater::adler32(data));
}

#[test]
fn adler32_test_incremental() {
    let data = b"Hello World";
    let full = adler32(1, data);
    let partial = adler32(1, &data[..5]);
    let incremental = adler32(partial, &data[5..]);
    assert_eq!(full, incremental);
}

fn adler32_check(data: &[u8]) {
    let ours = adler32(1, data);
    let theirs = libdeflater::adler32(data);
    assert_eq!(ours, theirs, "adler32 mismatch for {} bytes", data.len());
}

fn adler32_check_incremental(data: &[u8], split: usize) {
    let split = split.min(data.len());
    let ours = {
        let a = adler32(1, &data[..split]);
        adler32(a, &data[split..])
    };
    let theirs = libdeflater::adler32(data);
    assert_eq!(
        ours,
        theirs,
        "incremental adler32 mismatch for {} bytes split at {}",
        data.len(),
        split
    );
}

#[test]
fn adler32_parity_empty() {
    adler32_check(&[]);
}

#[test]
fn adler32_parity_single_byte() {
    for b in 0..=255u8 {
        adler32_check(&[b]);
    }
}

#[test]
fn adler32_parity_all_zeros() {
    for &len in &[1, 100, 5552, 65536] {
        adler32_check(&vec![0u8; len]);
    }
}

#[test]
fn adler32_parity_all_ff() {
    for &len in &[1, 100, 5552, 65536] {
        adler32_check(&vec![0xFFu8; len]);
    }
}

#[test]
fn adler32_parity_sequential() {
    let data: Vec<u8> = (0..=255).cycle().take(100_000).collect();
    adler32_check(&data);
}

#[test]
fn parity_chunk_boundary() {
    for len in [5550, 5551, 5552, 5553, 5554, 11104, 11105] {
        let data: Vec<u8> = (0..=255).cycle().take(len).collect();
        adler32_check(&data);
    }
}

#[test]
fn adler32_parity_incremental() {
    let data: Vec<u8> = (0..=255).cycle().take(20_000).collect();
    for &split in &[0, 1, 100, 5552, 10000, 20000] {
        adler32_check_incremental(&data, split);
    }
}

#[test]
fn adler32_parity_large() {
    let data: Vec<u8> = (0..=255).cycle().take(1_000_000).collect();
    adler32_check(&data);
}

#[test]
fn crc32_test_initial_value() {
    assert_eq!(crc32(0, &[]), 0);
}

#[test]
fn test_known_value() {
    // CRC-32 of "123456789" is 0xCBF43926
    assert_eq!(crc32(0, b"123456789"), 0xCBF43926);
}

#[test]
fn crc32_test_incremental() {
    let data = b"Hello World";
    let full = crc32(0, data);
    let partial = crc32(0, &data[..5]);
    let incremental = crc32(partial, &data[5..]);
    assert_eq!(full, incremental);
}

fn crc32_check(data: &[u8]) {
    let ours = crc32(0, data);
    let theirs = libdeflater::crc32(data);
    assert_eq!(ours, theirs, "crc32 mismatch for {} bytes", data.len());
}

fn crc32_check_incremental(data: &[u8], split: usize) {
    let split = split.min(data.len());
    let ours = {
        let c = crc32(0, &data[..split]);
        crc32(c, &data[split..])
    };
    let theirs = libdeflater::crc32(data);
    assert_eq!(
        ours,
        theirs,
        "incremental crc32 mismatch for {} bytes split at {}",
        data.len(),
        split
    );
}

#[test]
fn crc32_parity_empty() {
    crc32_check(&[]);
}

#[test]
fn crc32_parity_single_byte() {
    for b in 0..=255u8 {
        crc32_check(&[b]);
    }
}

#[test]
fn crc32_parity_all_zeros() {
    for &len in &[1, 100, 8, 16, 64, 65536] {
        crc32_check(&vec![0u8; len]);
    }
}

#[test]
fn crc32_parity_all_ff() {
    for &len in &[1, 100, 8, 16, 64, 65536] {
        crc32_check(&vec![0xFFu8; len]);
    }
}

#[test]
fn crc32_parity_sequential() {
    let data: Vec<u8> = (0..=255).cycle().take(100_000).collect();
    crc32_check(&data);
}

#[test]
fn parity_alignment_variants() {
    // Test with different amounts of leading bytes before 8-byte chunks
    for offset in 0..16 {
        let data: Vec<u8> = (0..=255).cycle().take(1000 + offset).collect();
        crc32_check(&data);
    }
}

#[test]
fn crc32_parity_incremental() {
    let data: Vec<u8> = (0..=255).cycle().take(20_000).collect();
    for &split in &[0, 1, 7, 8, 9, 100, 10000, 20000] {
        crc32_check_incremental(&data, split);
    }
}

#[test]
fn crc32_parity_large() {
    let data: Vec<u8> = (0..=255).cycle().take(1_000_000).collect();
    crc32_check(&data);
}
