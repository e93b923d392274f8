//! Full-optimal parsing.

use zenflate::compress::bitstream::OutputBitstream;
use zenflate::compress::block::DeflateFreqs;
use zenflate::compress::full_optimal::finder::Finder;
use zenflate::compress::full_optimal::split::{
    block_cost, blocksplit, blocksplit_lz77, calculate_block_size_dynamic, count_symbols, MAX_BLOCKS,
};
use zenflate::compress::full_optimal::squeeze::{
    calculate_huffman_costs, FullOptimalState, Next, RanState, Squeeze, SymbolStats, Weights,
};
use zenflate::compress::full_optimal::store::{
    compute_frequencies_from_path, path_fits, trace, LitLen, Lz77Store,
};
use zenflate::compress::full_optimal::write::{calculate_split_cost, write_blocks};
use zenflate::{Decompressor, Unstoppable};

fn sample() -> Vec<u8> {
    let mut v = Vec::new();
    for i in 0..20_000u32 {
        v.push(b"the cat sat on the mat; "[i as usize % 24]);
        if i % 17 == 0 {
            v.push((i.wrapping_mul(2654435761) >> 24) as u8);
        }
    }
    v.extend(std::iter::repeat(0u8).take(5000));
    for i in 0..20_000u32 {
        v.push((i.wrapping_mul(2654435761) >> 22) as u8);
    }
    v
}

fn expand(store: &Lz77Store, from: &[u8]) -> Vec<u8> {
    let mut out = from.to_vec();
    for x in &store.litlens {
        match *x {
            LitLen::Literal(b) => out.push(b as u8),
            LitLen::LengthDist(len, dist) => {
                for _ in 0..len {
                    out.push(out[out.len() - dist as usize]);
                }
            }
        }
    }
    out
}

#[test]
fn a_greedy_parse_stands_for_the_data() {
    let data = sample();
    for start in [0usize, 1, 100, 30_000] {
        let mut store = Lz77Store::new();
        store.greedy(&data, start, data.len());
        assert_eq!(expand(&store, &data[..start]), data);
    }
}

#[test]
fn blocks_decode_to_the_input() {
    let data = sample();
    let mut bounds = vec![0];
    bounds.extend(blocksplit(&data, 0, data.len(), MAX_BLOCKS));
    bounds.push(data.len());
    assert!(bounds.len() > 2);
    let mut stores = Vec::new();
    for w in bounds.windows(2) {
        let mut store = Lz77Store::new();
        store.greedy(&data, w[0], w[1]);
        stores.push(store);
    }
    let mut out = vec![0u8; 2 * data.len()];
    let mut os = OutputBitstream::new(&mut out);
    write_blocks(&mut os, &data, &bounds, &stores, true);
    assert!(!os.overflow);
    let (pos, bits) = (os.pos, os.bitbuf);
    out[pos] = bits as u8;
    let mut back = vec![0u8; data.len()];
    let r = Decompressor::new().deflate_decompress(&out, &mut back, Unstoppable).unwrap();
    assert_eq!(r.output_written, data.len());
    assert_eq!(back, data);
}

#[test]
fn splits_are_in_order() {
    let data = sample();
    let mut store = Lz77Store::new();
    store.greedy(&data, 0, data.len());
    let points = blocksplit_lz77(&store, MAX_BLOCKS);
    assert!(!points.is_empty() && points.len() < 15);
    assert!(points.windows(2).all(|w| w[0] < w[1]));
    assert!(points[0] > 0 && points[points.len() - 1] < store.size());
    assert!(calculate_split_cost(&store, &points) < calculate_split_cost(&store, &vec![]));
    assert_eq!(
        calculate_split_cost(&store, &vec![]),
        calculate_block_size_dynamic(&store, 0, store.size())
    );
    assert!(blocksplit_lz77(&store, 1).is_empty());
    assert_eq!(store.sub_store(3, 5).size(), 2);
}

#[test]
fn the_finder_gives_matches_in_each_round() {
    let data = sample();
    let start = 40;
    let mut finder = Finder::new(&data, start, data.len());
    for _ in 0..3 {
        finder.begin();
        let mut next = start;
        while let Some(step) = finder.advance() {
            assert_eq!(step.pos, next + step.run);
            for p in next..step.pos {
                assert!((p..p + 258).all(|i| data[i] == data[i - 1]));
            }
            for k in 3..=step.length as usize {
                let d = finder.sublens()[k] as usize;
                assert!((step.pos..step.pos + k).all(|i| data[i] == data[i - d]));
            }
            next = step.pos + 1;
        }
        assert_eq!(next, data.len());
    }
}

#[test]
fn a_traced_path_is_a_parse() {
    let data = b"abcabcabc";
    let lens = [0u16, 1, 1, 1, 1, 1, 3, 1, 1, 6];
    let dists = [0u16, 0, 0, 0, 0, 0, 3, 0, 0, 3];
    let mut path = Vec::new();
    trace(9, &lens, &dists, &mut path);
    assert_eq!(path, vec![(6, 3), (1, 0), (1, 0), (1, 0)]);
    assert!(path_fits(data, 0, 9, &path));
    assert!(!path_fits(b"abcabcabx", 0, 9, &path));
    assert!(!path_fits(data, 0, 8, &path));
    let freqs = compute_frequencies_from_path(data, 0, &path);
    assert_eq!(freqs.litlen[b'a' as usize], 1);
    assert_eq!(freqs.litlen[257 + 3], 1);
    assert_eq!(freqs.litlen[256], 1);
    assert_eq!(freqs.offset[2], 1);
    let mut store = Lz77Store::new();
    store.store_from_path(data, 0, &path);
    assert_eq!(expand(&store, &[]), data);
    let counted = count_symbols(&store, 0, store.size());
    assert_eq!(counted.litlen, freqs.litlen);
    assert_eq!(block_cost(&freqs), calculate_block_size_dynamic(&store, 0, store.size()));
}

#[test]
fn random_numbers() {
    let mut r = RanState { m_w: 1, m_z: 2 };
    assert_eq!(r.random_marsaglia(), (73938u32 << 16).wrapping_add(18000));
    assert_eq!((r.m_w, r.m_z), (18000, 73938));
    let b = RanState::for_block(1);
    assert_eq!((b.m_w, b.m_z), (0x9E37_79BA, 0x9E37_79BB));
}

#[test]
fn rounds() {
    let mut freqs = DeflateFreqs::default();
    freqs.litlen[65] = 10;
    let mut s = Squeeze::new(100, 40, &freqs, 1000);
    assert_eq!(s.stats.litlens[65], 10);
    assert_eq!(s.stats.litlens[256], 1);
    assert!(s.improves(999) && !s.improves(1000));
    let mut lengths = 0;
    for round in 0..40 {
        if s.weights() == Weights::CodeLengths {
            assert_eq!(round, 29);
            lengths += 1;
        }
        let next = s.step(900, &freqs);
        assert_eq!(next, if round < 39 { Next::Continue } else { Next::Refine });
    }
    assert_eq!(lengths, 1);
    assert_eq!(s.bestcost, 900);
    assert_eq!(s.diversification_attempts, 3);
    assert!(s.randomized);
    let mut s = Squeeze::new(100, 2, &freqs, 1000);
    assert_eq!(s.step(2000, &freqs), Next::Continue);
    assert_eq!(s.step(2000, &freqs), Next::Done);
    assert_eq!(s.bestcost, 1000);
    assert_eq!(FullOptimalState::new(15).iterations(), 15);
}

#[test]
fn codes_for_counters() {
    let mut stats = SymbolStats::new();
    stats.litlens[1] = 4;
    stats.litlens[2] = 2;
    stats.litlens[3] = 1;
    stats.litlens[4] = 1;
    let codes = calculate_huffman_costs(&stats);
    assert_eq!(codes.lens_litlen[1..5], [1, 2, 3, 3]);
}

#[test]
fn blocks_overflow_only_where_they_do_not_fit() {
    let data = sample();
    let mut store = Lz77Store::new();
    store.greedy(&data, 0, data.len());
    let bounds = vec![0, data.len()];
    let stores = vec![store];
    let mut out = vec![0u8; 2 * data.len()];
    let mut os = OutputBitstream::new(&mut out);
    write_blocks(&mut os, &data, &bounds, &stores, true);
    assert!(!os.overflow);
    let size = os.pos + (os.bitcount as usize + 7) / 8;
    let mut tight = vec![0u8; size];
    let mut os = OutputBitstream::new(&mut tight);
    write_blocks(&mut os, &data, &bounds, &stores, true);
    assert!(!os.overflow);
    let mut os = OutputBitstream::new(&mut tight[..size - 1]);
    write_blocks(&mut os, &data, &bounds, &stores, true);
    assert!(os.overflow);
}
