//! Output against another library.

use zenflate::{CompressionLevel, Compressor, Unstoppable};

fn mixed(len: usize) -> Vec<u8> {
    let mut data = vec![0u8; len];
    for (i, byte) in data.iter_mut().enumerate() {
        *byte = match i % 1024 {
            0..=255 => (i % 256) as u8,
            256..=511 => (i / 256 % 256) as u8,
            512..=767 => b"Hello, World! "[i % 14],
            _ => (i.wrapping_mul(2654435761) >> 16) as u8,
        };
    }
    data
}

fn text(len: usize) -> Vec<u8> {
    let words: [&[u8]; 8] =
        [b"the ", b"quick ", b"brown ", b"fox ", b"jumps ", b"over ", b"lazy ", b"dog. "];
    let mut v = Vec::new();
    let mut s: u32 = 12345;
    while v.len() < len {
        s = s.wrapping_mul(1664525).wrapping_add(1013904223);
        v.extend_from_slice(words[(s >> 24) as usize % 8]);
        if (s >> 10) % 7 == 0 {
            v.push((s >> 16) as u8);
        }
    }
    v.truncate(len);
    v
}

#[test]
fn libdeflate_levels_give_the_same_bytes() {
    let inputs: Vec<Vec<u8>> = vec![
        vec![],
        b"Hello, World! Hello, World!".to_vec(),
        mixed(10_000),
        mixed(200_000),
        text(100),
        text(20_000),
        text(400_000),
        vec![0u8; 100_000],
        (0..=255).cycle().take(100_000).collect(),
    ];
    for level in 0..=12 {
        for (k, data) in inputs.iter().enumerate() {
            let mut ld = libdeflater::Compressor::new(libdeflater::CompressionLvl::new(level).unwrap());
            let mut a = vec![0u8; ld.deflate_compress_bound(data.len()) + 100];
            let n = ld.deflate_compress(data, &mut a).unwrap();
            let mut c = Compressor::new(CompressionLevel::libdeflate(level as u32));
            let mut b = vec![0u8; Compressor::deflate_compress_bound(data.len())];
            let m = c.deflate_compress(data, &mut b, Unstoppable).unwrap();
            assert!(a[..n] == b[..m], "level {level}, input {k}");
        }
    }
}
