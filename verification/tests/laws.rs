//! What holds of the library as a whole, on concrete values.

use zenflate::compress::bitstream::OutputBitstream;
use zenflate::compress::huffman::make_huffman_code;
use zenflate::compress::parallel::{assemble_gzip, compress_chunk, plan_chunks};
use zenflate::compress::precode::{
    compute_precode_cost, compute_precode_items_best, PrecodeFlags,
};
use zenflate::{
    adler32, crc32, crc32_combine, gzip_compress, gzip_decompress, zlib_compress, zlib_decompress,
    CompressionError, CompressionLevel, Compressor, DecompressionError, Decompressor, InputSource,
    Stop, StopReason, StreamDecompressor, StreamError, Unstoppable,
};

fn sample(len: usize) -> Vec<u8> {
    let mut v = Vec::new();
    let mut s: u32 = 99;
    while v.len() < len {
        s = s.wrapping_mul(1103515245).wrapping_add(12345);
        match (s >> 16) % 3 {
            0 => v.extend_from_slice(b"some words again and again "),
            1 => v.push((s >> 20) as u8),
            _ => {
                let n = v.len().min(40);
                let back: Vec<u8> = v[v.len() - n..].to_vec();
                v.extend_from_slice(&back);
            }
        }
    }
    v.truncate(len);
    v
}

fn deflate(data: &[u8], effort: u32) -> Vec<u8> {
    let mut c = Compressor::new(CompressionLevel::new(effort));
    let mut out = vec![0u8; Compressor::deflate_compress_bound(data.len())];
    let n = c.deflate_compress(data, &mut out, Unstoppable).unwrap();
    out.truncate(n);
    out
}

fn inflate(data: &[u8], len: usize) -> Vec<u8> {
    let mut d = Decompressor::new();
    let mut out = vec![0u8; len];
    let r = d.deflate_decompress(data, &mut out, Unstoppable).unwrap();
    out.truncate(r.output_written);
    out
}

fn stream_all<S: InputSource>(dec: &mut StreamDecompressor<S>) -> Result<Vec<u8>, StreamError<S::Error>> {
    let mut out = Vec::new();
    while !dec.is_done() {
        dec.fill()?;
        let n = dec.peek().len();
        out.extend_from_slice(dec.peek());
        dec.advance(n);
    }
    Ok(out)
}

#[test]
fn every_effort_gives_back_the_input() {
    for len in [0usize, 1, 2, 3, 100, 40_000] {
        let data = sample(len);
        for effort in 0..=30 {
            assert_eq!(inflate(&deflate(&data, effort), len), data, "effort {effort}, {len} bytes");
        }
    }
}

#[test]
fn compressed_data_may_be_followed_by_anything() {
    let data = sample(5000);
    let mut raw = deflate(&data, 10);
    let used = raw.len();
    raw.extend_from_slice(b"anything");
    let mut d = Decompressor::new();
    let mut out = vec![0u8; 5000];
    let r = d.deflate_decompress(&raw, &mut out, Unstoppable).unwrap();
    assert_eq!(r.output_written, 5000);
    assert_eq!(r.input_consumed, used);
    assert_eq!(out, data);
}

#[test]
fn wrapped_data_comes_back() {
    for len in [0usize, 1, 3000, 70_000] {
        let data = sample(len);
        let z = zlib_compress(&data, CompressionLevel::balanced()).unwrap();
        assert_eq!(zlib_decompress(&z, len).unwrap(), data);
        let g = gzip_compress(&data, CompressionLevel::balanced()).unwrap();
        assert_eq!(gzip_decompress(&g, len).unwrap(), data);
        let mut s = StreamDecompressor::zlib(&z[..], 1024);
        assert_eq!(stream_all(&mut s).unwrap(), data);
        let mut s = StreamDecompressor::gzip(&g[..], 1024);
        assert_eq!(stream_all(&mut s).unwrap(), data);
        let raw = deflate(&data, 15);
        let mut s = StreamDecompressor::deflate(&raw[..], 1);
        assert_eq!(stream_all(&mut s).unwrap(), data);
    }
}

#[test]
fn the_bound_is_enough_for_noise() {
    let mut s: u32 = 1;
    let noise: Vec<u8> = (0..100_000)
        .map(|_| {
            s ^= s << 13;
            s ^= s >> 17;
            s ^= s << 5;
            s as u8
        })
        .collect();
    assert_eq!(Compressor::deflate_compress_bound(100_000), 100_100);
    assert_eq!(Compressor::zlib_compress_bound(100_000), 100_106);
    assert_eq!(Compressor::gzip_compress_bound(100_000), 100_118);
    assert_eq!(Compressor::deflate_compress_bound(0), 5);
    for effort in 0..=30 {
        assert_eq!(inflate(&deflate(&noise, effort), noise.len()), noise);
    }
}

#[test]
fn more_room_makes_no_difference() {
    let data = sample(2000);
    let raw = deflate(&data, 20);
    assert_eq!(inflate(&raw, 2000), inflate(&raw, 5000));
    let mut d = Decompressor::new();
    let mut out = vec![0u8; 1999];
    assert_eq!(
        d.deflate_decompress(&raw, &mut out, Unstoppable).unwrap_err(),
        DecompressionError::InsufficientSpace
    );
}

#[test]
fn checksums_go_on() {
    let data = sample(10_000);
    for cut in [0usize, 1, 4321, 10_000] {
        let (a, b) = data.split_at(cut);
        assert_eq!(adler32(adler32(1, a), b), adler32(1, &data));
        assert_eq!(crc32(crc32(0, a), b), crc32(0, &data));
        assert_eq!(crc32_combine(crc32(0, a), crc32(0, b), b.len()), crc32(0, &data));
    }
    assert_eq!(adler32(1, b"Wikipedia"), 0x11e6_0398);
    assert_eq!(crc32(0, b"123456789"), 0xcbf4_3926);
}

#[test]
fn restoring_a_snapshot_repeats_the_output() {
    let data = sample(60_000);
    let levels = [
        CompressionLevel::libdeflate(1),
        CompressionLevel::libdeflate(3),
        CompressionLevel::new(15),
        CompressionLevel::libdeflate(9),
    ];
    for level in levels {
        let mut c = Compressor::new(level);
        let mut out = vec![0u8; 100_000];
        c.deflate_compress_incremental(&data[..30_000], &mut out, false, Unstoppable).unwrap();
        let snap = c.snapshot();
        let mut first = vec![0u8; 100_000];
        let a = c.deflate_compress_incremental(&data, &mut first, true, Unstoppable).unwrap();
        c.restore(snap);
        assert_eq!(c.incremental_pos(), 30_000);
        let mut second = vec![0u8; 100_000];
        let b = c.deflate_compress_incremental(&data, &mut second, true, Unstoppable).unwrap();
        assert_eq!(first[..a], second[..b]);
        c.incremental_reset();
        assert_eq!(c.incremental_pos(), 0);
        let n = c.deflate_compress_incremental(&data, &mut out, true, Unstoppable).unwrap();
        assert_eq!(inflate(&out[..n], data.len()), data);
    }
}

#[test]
fn an_incremental_stream_can_end_without_data() {
    let mut c = Compressor::new(CompressionLevel::new(15));
    let mut out = vec![0u8; 100];
    assert_eq!(c.deflate_compress_incremental(&[], &mut out, false, Unstoppable).unwrap(), 0);
    let n = c.deflate_compress_incremental(&[], &mut out, true, Unstoppable).unwrap();
    assert!(n > 0);
    assert_eq!(inflate(&out[..n], 10), vec![]);
    let mut c = Compressor::new(CompressionLevel::none());
    assert_eq!(
        c.deflate_compress_incremental(b"data", &mut out, true, Unstoppable).unwrap_err(),
        CompressionError::InsufficientSpace
    );
}

#[test]
fn chunks_join() {
    let data = sample(100_000);
    let ends = plan_chunks(data.len(), 3);
    assert_eq!(ends, vec![33_334, 66_668, 100_000]);
    let mut chunks = Vec::new();
    let mut start = 0;
    for &end in &ends {
        chunks.push(compress_chunk(CompressionLevel::new(12), &data, start, end, &Unstoppable).unwrap());
        start = end;
    }
    let mut out = vec![0u8; 200_000];
    let n = assemble_gzip(&data, &ends, &chunks, &mut out).unwrap();
    assert_eq!(gzip_decompress(&out[..n], data.len()).unwrap(), data);
    let mut small = vec![0u8; n - 1];
    assert_eq!(
        assemble_gzip(&data, &ends, &chunks, &mut small).unwrap_err(),
        CompressionError::InsufficientSpace
    );
}

#[test]
fn fallbacks_end() {
    for effort in 0..=30 {
        let mut level = CompressionLevel::new(effort);
        let mut steps = 0;
        while let Some(next) = level.monotonicity_fallback() {
            assert!(next.effort() < level.effort());
            level = next;
            steps += 1;
        }
        assert!(steps <= 30);
    }
}

struct StopNow;

impl Stop for StopNow {
    fn check(&self) -> Result<(), StopReason> {
        Err(StopReason::Cancelled)
    }
}

#[test]
fn each_error_comes() {
    let data = sample(50_000);
    let mut c = Compressor::new(CompressionLevel::new(15));
    let mut out = vec![0u8; 60_000];
    assert_eq!(
        c.deflate_compress(&data, &mut out, StopNow).unwrap_err(),
        CompressionError::Stopped(StopReason::Cancelled)
    );
    let mut tiny = [0u8; 3];
    assert_eq!(
        c.deflate_compress(&data, &mut tiny, Unstoppable).unwrap_err(),
        CompressionError::InsufficientSpace
    );
    let z = zlib_compress(&data, CompressionLevel::fast()).unwrap();
    let mut d = Decompressor::new();
    assert_eq!(
        d.zlib_decompress(&z, &mut out, StopNow).unwrap_err(),
        DecompressionError::Stopped(StopReason::Cancelled)
    );
    assert_eq!(zlib_decompress(&z, 49_999).unwrap_err(), DecompressionError::OutputLimitExceeded);
    let mut bad = z.clone();
    bad[0] = 0;
    assert_eq!(zlib_decompress(&bad, 50_000).unwrap_err(), DecompressionError::InvalidHeader);
    let mut bad = z.clone();
    let k = bad.len() - 1;
    bad[k] ^= 1;
    assert_eq!(zlib_decompress(&bad, 50_000).unwrap_err(), DecompressionError::ChecksumMismatch);
    assert_eq!(
        d.deflate_decompress(&[0x07], &mut out, Unstoppable).unwrap_err(),
        DecompressionError::BadData
    );
    assert_eq!(DecompressionError::BadData.message(), "invalid or corrupt compressed data");
    assert_eq!(
        CompressionError::InsufficientSpace.message(),
        "output buffer too small for compressed data"
    );
}

/// Gives a byte at a time, and fails before each of them.
struct Flaky {
    data: Vec<u8>,
    pos: usize,
    failed: bool,
}

impl InputSource for Flaky {
    type Error = u32;

    fn fill_buf(&mut self) -> Result<&[u8], u32> {
        if !self.failed {
            self.failed = true;
            return Err(7);
        }
        let end = self.data.len().min(self.pos + 1);
        Ok(&self.data[self.pos..end])
    }

    fn consume(&mut self, n: usize) {
        self.pos += n;
        if n > 0 {
            self.failed = false;
        }
    }
}

#[test]
fn an_error_of_the_source_loses_nothing() {
    let data = sample(3000);
    let z = zlib_compress(&data, CompressionLevel::balanced()).unwrap();
    let mut dec = StreamDecompressor::zlib(Flaky { data: z, pos: 0, failed: false }, 100);
    let mut out = Vec::new();
    let mut errors = 0;
    while !dec.is_done() {
        match dec.fill() {
            Ok(_) => {}
            Err(StreamError::Source(e)) => {
                assert_eq!(e, 7);
                errors += 1;
            }
            Err(StreamError::Decompress(e)) => panic!("{e:?}"),
        }
        let n = dec.peek().len();
        out.extend_from_slice(dec.peek());
        dec.advance(n);
    }
    assert!(errors > 0);
    assert_eq!(out, data);
    assert_eq!(dec.checksum_matched(), Some(true));
}

#[test]
fn bad_data_stays_bad() {
    let mut dec = StreamDecompressor::deflate(&[0x07u8, 0, 0][..], 100);
    for _ in 0..3 {
        match dec.fill() {
            Err(StreamError::Decompress(e)) => assert_eq!(e, DecompressionError::BadData),
            _ => panic!("no error"),
        }
    }
    let data = sample(500);
    let raw = deflate(&data, 12);
    dec.reset(&raw[..]);
    assert_eq!(stream_all(&mut dec).unwrap(), data);
}

#[test]
fn the_cheapest_kind_of_block_is_written() {
    let kind = |d: &[u8]| (d[0] >> 1) & 3;
    let mut s: u32 = 1;
    let noise: Vec<u8> = (0..2000)
        .map(|_| {
            s ^= s << 13;
            s ^= s >> 17;
            s ^= s << 5;
            s as u8
        })
        .collect();
    for effort in [3, 10, 15, 20, 30] {
        assert_eq!(kind(&deflate(&noise, effort)), 0, "effort {effort}");
        assert_eq!(kind(&deflate(&[b'a'; 100], effort)), 1, "effort {effort}");
        let skewed: Vec<u8> = (0..5000u32).map(|i| if i * i % 11 < 5 { b'x' } else { (i * i % 7) as u8 }).collect();
        assert_eq!(kind(&deflate(&skewed, effort)), 2, "effort {effort}");
    }
    let stored = deflate(b"abc", 0);
    assert_eq!(stored, vec![1, 3, 0, 0xfc, 0xff, b'a', b'b', b'c']);
}

#[test]
fn streams_with_long_headers_agree_with_whole_ones() {
    let data = sample(4000);
    let raw = deflate(&data, 15);
    let mut g = vec![0x1f, 0x8b, 8, 4 + 8 + 16 + 2, 0, 0, 0, 0, 0, 255];
    g.extend_from_slice(&[3, 0, 1, 2, 3]);
    g.extend_from_slice(b"name\0comment\0");
    g.extend_from_slice(&[0, 0]);
    g.extend_from_slice(&raw);
    g.extend_from_slice(&crc32(0, &data).to_le_bytes());
    g.extend_from_slice(&(data.len() as u32).to_le_bytes());
    g.extend_from_slice(b"more");
    assert_eq!(gzip_decompress(&g, 4000).unwrap(), data);
    let mut dec = StreamDecompressor::gzip(&g[..], 300);
    assert_eq!(stream_all(&mut dec).unwrap(), data);
    assert_eq!(dec.checksum_matched(), Some(true));
    let mut z = zlib_compress(&data, CompressionLevel::best()).unwrap();
    z.extend_from_slice(b"more");
    let mut dec = StreamDecompressor::zlib(&z[..], 300);
    assert_eq!(stream_all(&mut dec).unwrap(), zlib_decompress(&z, 4000).unwrap());
}

#[test]
fn huffman_codes_are_cheapest() {
    let freqs = [5u32, 9, 12, 13, 16, 45];
    let mut lens = [0u8; 6];
    let mut words = [0u32; 6];
    make_huffman_code(6, 15, &freqs, &mut lens, &mut words);
    assert_eq!(lens, [4, 4, 3, 3, 3, 1]);
    let cost: u32 = freqs.iter().zip(lens).map(|(f, l)| f * l as u32).sum();
    assert_eq!(cost, 224);
}

#[test]
fn a_level_writes_the_same_whatever_the_room() {
    let data = sample(120000);
    for effort in [1u32, 5, 9, 12, 15, 20] {
        let whole = deflate(&data, effort);
        let mut c = Compressor::new(CompressionLevel::new(effort));
        for extra in [0usize, 1, 9, 100000] {
            let mut out = vec![0xffu8; whole.len() + extra];
            let n = c.deflate_compress(&data, &mut out, Unstoppable).unwrap();
            assert_eq!(&out[..n], &whole[..], "effort {} with {} bytes more", effort, extra);
        }
    }
}

#[test]
fn the_best_way_to_pack_lengths_is_found() {
    let mut lens = vec![0u8; 60];
    for i in 0..60 {
        lens[i] = if i % 15 < 8 { 7 } else { 0 };
    }
    let best = compute_precode_items_best(&lens);
    for mask in 0u8..32 {
        let flags = PrecodeFlags::from_bits(mask);
        if flags.is_valid() {
            assert!(best.cost <= compute_precode_cost(&lens, flags));
        }
    }
    // Ten precode lengths, one bit for the first length, three for its repetition
    assert_eq!(compute_precode_cost(&[5u8, 5, 5, 5], PrecodeFlags::standard()), 14 + 30 + 1 + 3);
}

#[test]
fn the_longest_codewords_go_to_the_rarest_symbols() {
    let freqs = [1u32, 2, 4, 8, 16, 32];
    let mut lens = [0u8; 6];
    let mut codewords = [0u32; 6];
    make_huffman_code(6, 15, &freqs, &mut lens, &mut codewords);
    assert_eq!(lens, [5, 5, 4, 3, 2, 1]);
    make_huffman_code(6, 3, &freqs, &mut lens, &mut codewords);
    assert_eq!(lens, [3, 3, 3, 3, 2, 2]);
}

#[test]
fn a_static_block_is_preferred_where_it_takes_fewer_bits_than_a_stored_one() {
    // 253 bits with the static codes, 256 bits stored.
    let data: Vec<u8> = (0..27u8).map(|i| 144 + 4 * i).collect();
    let out = deflate(&data, 30);
    assert_eq!(out.len(), 32);
    assert_eq!(out[0] & 7, 3);
    let mut back = [0u8; 27];
    Decompressor::new()
        .deflate_decompress(&out, &mut back, Unstoppable)
        .unwrap();
    assert_eq!(back[..], data[..]);
}

#[test]
fn values_that_do_not_fit_are_not_written() {
    let mut buf = [0u8; 3];
    {
        let mut os = OutputBitstream::new(&mut buf);
        os.write_le16(0x1234);
        assert!(!os.overflow);
        os.write_le16(0x5678);
        assert!(os.overflow);
        assert_eq!(os.pos, 2);
    }
    assert_eq!(buf, [0x34, 0x12, 0x00]);
    let mut buf = [0u8; 5];
    {
        let mut os = OutputBitstream::new(&mut buf);
        os.write_le32(0x0403_0201);
        os.write_le32(0x0807_0605);
        assert!(os.overflow);
        assert_eq!(os.pos, 4);
    }
    assert_eq!(buf, [1, 2, 3, 4, 0]);
    let mut buf = [7u8; 2];
    {
        let mut os = OutputBitstream::new(&mut buf);
        os.write_bytes(b"abc", 0, 3);
        assert!(os.overflow);
        assert_eq!(os.pos, 0);
    }
    assert_eq!(buf, [7, 7]);
}

#[test]
fn bits_that_do_not_fit_stay_in_the_buffer() {
    let mut buf = [0u8; 1];
    let mut os = OutputBitstream::new(&mut buf);
    os.add_bits(0x3aa55, 18);
    os.flush_bits();
    assert!(os.overflow);
    assert_eq!(os.pos, 1);
    assert_eq!(os.bitcount, 10);
    assert_eq!(os.bitbuf, 0x3aa);
    assert_eq!(os.buf[0], 0x55);
}

#[test]
fn near_optimal_levels_write_the_same_whatever_came_before() {
    let data = sample(60_000);
    let other: Vec<u8> = data.iter().rev().map(|b| b.wrapping_mul(3)).collect();
    for effort in [23, 27, 30] {
        let mut c = Compressor::new(CompressionLevel::new(effort));
        let mut out = vec![0u8; Compressor::gzip_compress_bound(data.len())];
        c.deflate_compress(&other, &mut out, Unstoppable).unwrap();
        let n = c.deflate_compress(&data, &mut out, Unstoppable).unwrap();
        let fresh = deflate(&data, effort);
        assert_eq!(out[..n], fresh[..]);
        let m = c.gzip_compress(&data, &mut out, Unstoppable).unwrap();
        assert_eq!(out[10..m - 8], fresh[..]);
    }
}

#[test]
fn a_reset_compressor_goes_on_as_a_new_one() {
    let data = sample(20_000);
    let level = CompressionLevel::new(12);
    let mut c = Compressor::new(level);
    let mut out = vec![0u8; Compressor::deflate_compress_bound(data.len())];
    c.deflate_compress_incremental(&data[5_000..12_000], &mut out, false, Unstoppable)
        .unwrap();
    c.incremental_reset();
    let n = c
        .deflate_compress_incremental(&data, &mut out, true, Unstoppable)
        .unwrap();
    let mut fresh = vec![0u8; Compressor::deflate_compress_bound(data.len())];
    let m = Compressor::new(level)
        .deflate_compress_incremental(&data, &mut fresh, true, Unstoppable)
        .unwrap();
    assert_eq!(out[..n], fresh[..m]);
}

#[test]
fn a_code_may_have_more_symbols_than_codewords_of_its_length() {
    let mut freqs = [0u32; 40];
    freqs[3] = 5;
    freqs[17] = 2;
    freqs[39] = 1;
    let mut lens = [0u8; 40];
    let mut codewords = [0u32; 40];
    make_huffman_code(40, 3, &freqs, &mut lens, &mut codewords);
    assert_eq!((lens[3], lens[17], lens[39]), (1, 2, 2));
    assert_eq!(lens.iter().map(|&l| l as u32).sum::<u32>(), 5);
}

#[test]
fn an_output_is_too_small_only_where_the_data_takes_more() {
    let data = sample(40_000);
    for effort in [8, 12, 17, 20, 24, 30] {
        let size = deflate(&data, effort).len();
        let mut c = Compressor::new(CompressionLevel::new(effort));
        let mut out = vec![0u8; size];
        assert_eq!(c.deflate_compress(&data, &mut out, Unstoppable), Ok(size));
        assert_eq!(
            c.deflate_compress(&data, &mut out[..size - 1], Unstoppable),
            Err(CompressionError::InsufficientSpace)
        );
        let mut out = vec![0u8; size + 6];
        assert_eq!(c.zlib_compress(&data, &mut out, Unstoppable), Ok(size + 6));
        assert_eq!(
            c.zlib_compress(&data, &mut out[..size + 5], Unstoppable),
            Err(CompressionError::InsufficientSpace)
        );
    }
}

fn noise(len: usize) -> Vec<u8> {
    let mut s: u32 = 7;
    let mut v = Vec::with_capacity(len);
    for _ in 0..len {
        s = s.wrapping_mul(1664525).wrapping_add(1013904223);
        v.push((s >> 24) as u8);
    }
    v
}

#[test]
fn chunks_fit_in_the_bound_and_five_bytes_for_each_thread() {
    for data in [noise(131_072 + 77), sample(90_000)] {
        for effort in [0, 1, 5, 9, 12, 18, 23, 27, 29, 30] {
            for threads in [2usize, 3, 5, 8] {
                let mut c = Compressor::new(CompressionLevel::new(effort));
                let size = Compressor::gzip_compress_bound(data.len()) + 5 * threads;
                let mut out = vec![0u8; size];
                let n = c.gzip_compress_parallel(&data, &mut out, threads, Unstoppable).unwrap();
                let mut back = vec![0u8; data.len()];
                let mut d = Decompressor::new();
                d.gzip_decompress(&out[..n], &mut back, Unstoppable).unwrap();
                assert_eq!(back, data);
            }
        }
    }
}

#[test]
fn a_parallel_output_is_too_small_only_where_the_chunks_take_more() {
    let data = sample(70_000);
    let mut c = Compressor::new(CompressionLevel::new(14));
    let mut out = vec![0u8; Compressor::gzip_compress_bound(data.len()) + 20];
    let n = c.gzip_compress_parallel(&data, &mut out, 4, Unstoppable).unwrap();
    let mut tight = vec![0u8; n];
    assert_eq!(c.gzip_compress_parallel(&data, &mut tight, 4, Unstoppable), Ok(n));
    assert_eq!(tight[..], out[..n]);
    assert_eq!(
        c.gzip_compress_parallel(&data, &mut tight[..n - 1], 4, Unstoppable),
        Err(CompressionError::InsufficientSpace)
    );
}

#[test]
fn a_piece_that_fits_once_fits_again() {
    let data = sample(30_000);
    let levels = [
        CompressionLevel::libdeflate(1),
        CompressionLevel::new(10),
        CompressionLevel::new(14),
        CompressionLevel::new(20),
    ];
    for level in levels {
        let mut c = Compressor::new(level);
        let mut out = vec![0u8; Compressor::deflate_compress_bound(data.len())];
        c.deflate_compress_incremental(&data[..9_000], &mut out, false, Unstoppable).unwrap();
        let snap = c.snapshot();
        let n = c.deflate_compress_incremental(&data, &mut out, true, Unstoppable).unwrap();
        let mut tight = vec![0u8; n];
        c.restore(snap.clone());
        assert_eq!(c.incremental_pos(), 9_000);
        assert_eq!(c.deflate_compress_incremental(&data, &mut tight, true, Unstoppable), Ok(n));
        assert_eq!(tight[..], out[..n]);
        c.restore(snap);
        assert_eq!(
            c.deflate_compress_incremental(&data, &mut tight[..n - 1], true, Unstoppable),
            Err(CompressionError::InsufficientSpace)
        );
    }
}

#[test]
fn a_long_piece_is_one_block() {
    // One match after the other, fewer than the store holds
    let data = vec![9u8; 4_100_000];
    let mut c = Compressor::new(CompressionLevel::new(12));
    let mut out = vec![0u8; Compressor::deflate_compress_bound(data.len())];
    let n = c.deflate_compress_incremental(&data, &mut out, true, Unstoppable).unwrap();
    assert_eq!(out[0] & 1, 1);
    assert_eq!(inflate(&out[..n], data.len()), data);
}

#[test]
fn a_code_as_deep_as_allowed_is_the_cheapest() {
    let freqs = [1u32, 1, 2, 4];
    let mut lens = [0u8; 4];
    let mut codewords = [0u32; 4];
    make_huffman_code(4, 3, &freqs, &mut lens, &mut codewords);
    assert_eq!(lens, [3, 3, 2, 1]);
    make_huffman_code(4, 2, &freqs, &mut lens, &mut codewords);
    assert_eq!(lens, [2, 2, 2, 2]);
}
