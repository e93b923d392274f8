//! DEFLATE/zlib/gzip compression.

pub mod bitstream;
pub mod block;
pub mod block_laws;
pub mod block_split;
pub mod chain_memory;
pub mod chain_model;
pub mod chains;
pub mod compressor;
pub mod cost_model;
pub mod costs;
pub mod emit;
pub mod fast_memory;
pub mod fastest;
pub mod full_optimal;
pub mod huffman;
pub mod huffman_model;
pub mod incremental;
pub mod items;
pub mod level;
pub mod level_laws;
pub mod near_model;
pub mod near_optimal;
pub mod near_tight;
pub mod optimal;
pub mod optimal_model;
pub mod optimality;
pub mod pack;
pub mod parallel;
pub mod params;
pub mod parse_laws;
pub mod precode;
pub mod progress;
pub mod sequences;
pub mod snapshot;
pub mod static_turbo;
pub mod stored;
pub mod tree_memory;
pub mod uniqueness;
pub mod way_laws;
pub mod wrap;
pub mod writer;

pub use compressor::Compressor;
pub use level::CompressionLevel;
pub use snapshot::CompressorSnapshot;
