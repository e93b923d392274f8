//! Symbols and prefix codes.

use zenflate::compress::block::{init_static_codes, DeflateCodes, DeflateFreqs};
use zenflate::compress::huffman::{heap_sort, make_huffman_code, reverse_codeword};
use zenflate::compress::items::{get_length_slot, get_offset_slot};

#[test]
fn test_offset_slot() {
    assert_eq!(get_offset_slot(1), 0);
    assert_eq!(get_offset_slot(2), 1);
    assert_eq!(get_offset_slot(3), 2);
    assert_eq!(get_offset_slot(4), 3);
    assert_eq!(get_offset_slot(5), 4);
    assert_eq!(get_offset_slot(7), 5);
    assert_eq!(get_offset_slot(9), 6);
    assert_eq!(get_offset_slot(13), 7);
    assert_eq!(get_offset_slot(256), 15);
    assert_eq!(get_offset_slot(257), 16);
    assert_eq!(get_offset_slot(32768), 29);
}

#[test]
fn test_length_slot() {
    assert_eq!(get_length_slot(3), 0); // min match
    assert_eq!(get_length_slot(4), 1);
    assert_eq!(get_length_slot(10), 7);
    assert_eq!(get_length_slot(258), 28); // max match
}

#[test]
fn test_static_codes_valid() {
    let mut freqs = DeflateFreqs::default();
    let mut codes = DeflateCodes::default();
    init_static_codes(&mut freqs, &mut codes);

    // Static codes: 0-143 = 8 bits, 144-255 = 9 bits, 256-279 = 7 bits, 280-287 = 8 bits
    assert_eq!(codes.lens_litlen[0], 8);
    assert_eq!(codes.lens_litlen[143], 8);
    assert_eq!(codes.lens_litlen[144], 9);
    assert_eq!(codes.lens_litlen[255], 9);
    assert_eq!(codes.lens_litlen[256], 7); // end-of-block
    assert_eq!(codes.lens_litlen[279], 7);
    assert_eq!(codes.lens_litlen[280], 8);
    assert_eq!(codes.lens_litlen[287], 8);
}

#[test]
fn test_reverse_codeword() {
    assert_eq!(reverse_codeword(0b0, 1), 0b0);
    assert_eq!(reverse_codeword(0b1, 1), 0b1);
    assert_eq!(reverse_codeword(0b10, 2), 0b01);
    assert_eq!(reverse_codeword(0b11, 2), 0b11);
    assert_eq!(reverse_codeword(0b1010, 4), 0b0101);
    assert_eq!(reverse_codeword(0b110, 3), 0b011);
}

#[test]
fn test_heap_sort_empty() {
    let mut a: [u32; 0] = [];
    heap_sort(&mut a);
}

#[test]
fn test_heap_sort_sorted() {
    let mut a = [1u32, 2, 3, 4, 5];
    heap_sort(&mut a);
    assert_eq!(a, [1, 2, 3, 4, 5]);
}

#[test]
fn test_heap_sort_reverse() {
    let mut a = [5u32, 4, 3, 2, 1];
    heap_sort(&mut a);
    assert_eq!(a, [1, 2, 3, 4, 5]);
}

#[test]
fn test_heap_sort_duplicates() {
    let mut a = [3u32, 1, 3, 1, 2];
    heap_sort(&mut a);
    assert_eq!(a, [1, 1, 2, 3, 3]);
}

#[test]
fn test_make_huffman_code_simple() {
    // Two symbols with equal frequency
    let freqs = [10u32, 10, 0, 0];
    let mut lens = [0u8; 4];
    let mut codewords = [0u32; 4];
    make_huffman_code(4, 15, &freqs, &mut lens, &mut codewords);

    assert_eq!(lens[0], 1);
    assert_eq!(lens[1], 1);
    assert_eq!(lens[2], 0);
    assert_eq!(lens[3], 0);
    // One should be 0 and one should be 1
    assert_ne!(codewords[0], codewords[1]);
}

#[test]
fn test_make_huffman_code_skewed() {
    // Heavily skewed frequencies: sym 0 very common, others rare
    let freqs = [100u32, 1, 1, 1];
    let mut lens = [0u8; 4];
    let mut codewords = [0u32; 4];
    make_huffman_code(4, 15, &freqs, &mut lens, &mut codewords);

    // Symbol 0 should have the shortest code
    assert!(lens[0] <= lens[1]);
    assert!(lens[0] <= lens[2]);
    assert!(lens[0] <= lens[3]);
}

#[test]
fn test_make_huffman_code_single_symbol() {
    let freqs = [10u32, 0, 0, 0];
    let mut lens = [0u8; 4];
    let mut codewords = [0u32; 4];
    make_huffman_code(4, 15, &freqs, &mut lens, &mut codewords);

    // Should produce a valid 2-symbol code
    assert_eq!(lens[0], 1);
    assert_eq!(lens[1], 1);
    assert_eq!(codewords[0], 0);
    assert_eq!(codewords[1], 1);
}

#[test]
fn test_make_huffman_code_no_symbols() {
    let freqs = [0u32; 4];
    let mut lens = [0u8; 4];
    let mut codewords = [0u32; 4];
    make_huffman_code(4, 15, &freqs, &mut lens, &mut codewords);

    // Should produce a valid 2-symbol code for symbols 0 and 1
    assert_eq!(lens[0], 1);
    assert_eq!(lens[1], 1);
}

#[test]
fn test_make_huffman_code_length_limited() {
    // Create frequencies that would naturally produce codes longer than 7 bits
    let mut freqs = [0u32; 19];
    freqs[0] = 10000;
    freqs[1] = 5000;
    freqs[2] = 2500;
    freqs[3] = 1250;
    freqs[4] = 625;
    freqs[5] = 312;
    freqs[6] = 156;
    freqs[7] = 78;
    freqs[8] = 39;
    freqs[9] = 20;
    freqs[10] = 10;
    freqs[11] = 5;
    freqs[12] = 2;
    freqs[13] = 1;

    let mut lens = [0u8; 19];
    let mut codewords = [0u32; 19];
    make_huffman_code(19, 7, &freqs, &mut lens, &mut codewords);

    for &l in &lens {
        assert!(l <= 7, "code length {l} exceeds max of 7");
    }
}
