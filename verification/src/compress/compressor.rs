//! DEFLATE/zlib/gzip compressor.

use crate::compress::bitstream::OutputBitstream;
use crate::compress::block;
use crate::compress::block::{init_static_codes, DeflateCodes, DeflateFreqs};
use crate::compress::block_split::BlockSplitStats;
use crate::compress::chain_model;
use crate::compress::chains;
use crate::compress::chains::{compress_chained, Lookahead, Parse, SearchParams};
use crate::compress::emit;
use crate::compress::fastest;
use crate::compress::fastest::compress_hashed;
use crate::compress::incremental;
use crate::compress::level::{CompressionLevel, InternalStrategy};
use crate::compress::near_model;
use crate::compress::near_model::Memory;
use crate::compress::near_optimal::NearOptimalState;
use crate::compress::optimal;
use crate::compress::optimal::compress_optimal;
use crate::compress::pack;
use crate::compress::pack::{deflate_compress_none, deflate_compress_none_chunk, finish_bytes};
use crate::compress::progress;
use crate::compress::sequences::Sequence;
use crate::compress::static_turbo;
use crate::compress::static_turbo::compress_static;
use crate::compress::stored;
use crate::compress::stored::put_stored;
use crate::error::CompressionError;
use crate::matchfinder::fast_ht::FastHtMatchfinder;
use crate::matchfinder::hc::HcMatchfinder;
use crate::matchfinder::ht::HtMatchfinder;
use crate::matchfinder::turbo::TurboMatchfinder;
use crate::matchfinder::HashMatchfinder;
use crate::stop::Stop;
use vstd::prelude::*;

verus! {

/// DEFLATE/zlib/gzip compressor.
///
/// Reuse across multiple compressions for best performance (avoids
/// re-initialization).
pub struct Compressor {
    /// Compression level.
    pub level: CompressionLevel,
    /// How hard to search for matches.
    pub params: SearchParams,
    /// Inputs not longer than this are passed through as uncompressed blocks.
    pub max_passthrough_size: usize,
    /// The current block: frequency counters, split statistics and sequences.
    pub parse: Parse,
    /// Dynamic Huffman codes for the current block.
    pub codes: DeflateCodes,
    /// Static Huffman codes.
    pub static_codes: DeflateCodes,
    /// Turbo matchfinder for StaticTurbo/Turbo strategies.
    pub turbo_mf: Option<TurboMatchfinder>,
    /// FastHt matchfinder for the FastHt strategy.
    pub fast_ht_mf: Option<FastHtMatchfinder>,
    /// Hash table matchfinder for HtGreedy strategy.
    pub ht_mf: Option<HtMatchfinder>,
    /// Hash chains matchfinder for Greedy/Lazy/Lazy2 strategies.
    pub hc_mf: Option<HcMatchfinder>,
    /// Near-optimal state for the NearOptimal strategy.
    pub near_optimal: Option<NearOptimalState>,
    /// Incremental compression: how far into the accumulated buffer we've
    /// compressed. 0 means no prior incremental call.
    pub incremental_pos: usize,
    /// Incremental compression: matchfinder base offset (for window sliding).
    pub incremental_base_offset: usize,
}

/// The search parameters that a level asks for.
pub open spec fn level_params(level: CompressionLevel, p: SearchParams) -> bool {
    match level.libdeflate_level {
        Some(l) => {
            &&& (p.max_search_depth as int, p.nice_match_length as int)
                == crate::compress::level::libdeflate_depth(l as int)
            &&& p.good_match == 259
            &&& p.max_lazy == 259
        },
        None => {
            &&& (p.max_search_depth as int, p.nice_match_length as int)
                == crate::compress::level::effort_depth(level.strategy, level.effort as int)
            &&& (p.good_match as int, p.max_lazy as int) == crate::compress::level::effort_lazy(
                level.strategy,
                level.effort as int,
            )
        },
    }
}

/// The size up to which inputs are passed through at a level.
pub open spec fn passthrough_of(level: CompressionLevel) -> int {
    if level.strategy == InternalStrategy::Store {
        usize::MAX as int
    } else if level.number() * 4 >= 55 {
        0
    } else {
        55 - level.number() * 4
    }
}

/// Every search parameter set of a level that searches chains or trees searches at
/// least a few positions.
pub proof fn lemma_depths(level: CompressionLevel, p: SearchParams)
    requires
        level.wf(),
        level_params(level, p),
    ensures
        level.strategy == InternalStrategy::Greedy ==> p.max_search_depth >= 4,
        level.strategy == InternalStrategy::Lazy ==> p.max_search_depth >= 4,
        level.strategy == InternalStrategy::Lazy2 ==> p.max_search_depth >= 4,
        level.strategy == InternalStrategy::NearOptimal ==> p.max_search_depth >= 4,
{
}

/// The strategy writes each block in the cheapest of the three ways.
pub open spec fn codes_blocks(strategy: InternalStrategy) -> bool {
    strategy != InternalStrategy::Store && strategy != InternalStrategy::StaticTurbo
}

/// The search depth of a level.
pub open spec fn depth_of(level: CompressionLevel) -> int {
    match level.libdeflate_level {
        Some(l) => crate::compress::level::libdeflate_depth(l as int).0,
        None => crate::compress::level::effort_depth(level.strategy, level.effort as int).0,
    }
}

/// At this level, a last block that is shorter than the minimum length is left only behind
/// a long one, or behind one that takes less room than its bytes.
///
/// This is so at all levels but effort 28. The near-optimal strategy ends a block also where
/// its cache of matches is full, which may be soon where it searches as deep as there; at
/// the levels that search deeper still, such a block is tried with the static codes too.
pub open spec fn fills_blocks(level: CompressionLevel) -> bool {
    level.strategy == InternalStrategy::NearOptimal ==> optimal::fills(
        depth_of(level),
        near_model::tuning_of(level),
    )
}

/// Blocks are filled at all levels but effort 28.
pub proof fn law_fills_blocks(level: CompressionLevel)
    requires
        level.wf(),
    ensures
        fills_blocks(level) == (level.libdeflate_level is Some || level.effort != 28),
{
}

/// Every effort above 0 compresses: the blocks of any input of more than 51 bytes are each
/// written in the cheapest of the three ways. Effort 0 stores inputs of all lengths.
pub proof fn law_every_effort_compresses(c: Compressor, input: Seq<u8>)
    requires
        c.wf(),
        input.len() <= usize::MAX,
    ensures
        c.level.effort > 0 && input.len() > 51 ==> c.codes_input(input),
        c.level.effort == 0 ==> !c.codes_input(input) && input.len() <= c.max_passthrough_size,
{
}

/// More effort never means that more inputs are passed through; the most effort compresses
/// all inputs of eight bytes or more.
pub proof fn law_passthrough_shrinks(a: CompressionLevel, b: CompressionLevel)
    requires
        a.wf(),
        b.wf(),
        a.libdeflate_level is Some == b.libdeflate_level is Some,
        a.effort <= b.effort,
    ensures
        passthrough_of(b) <= passthrough_of(a),
        a.effort > 0 ==> 0 <= passthrough_of(a) <= 51,
        a.effort > 0 ==> passthrough_of(a) + 4 * a.number() == 55,
{
    crate::compress::level::law_numbers_grow(a, b);
}

/// The room that the `n` bytes of a chunk take at most at a level that fills its blocks.
/// Behind a chunk that is not the last there is an empty stored block.
pub open spec fn chunk_room(n: int, last: bool) -> int {
    if last {
        progress::bound(n)
    } else if n < 5000 {
        progress::bound(n) + 5
    } else {
        n + 5 * (n / 5000) + 5
    }
}

/// What a strategy writes of the data from `start` on, behind the bits `b0`, where `room`
/// bytes are there for all of the output.
///
/// The strategies with hash tables or hash chains make the parse and the blocks that their
/// matchfinders give, and write each block in the cheapest of three ways; the near-optimal
/// one does so with cheapest ways through the matches that its binary trees give.
#[verifier::opaque]
pub open spec fn coded_by(
    level: CompressionLevel,
    sp: SearchParams,
    room: int,
    h: Seq<u8>,
    start: int,
    b0: Seq<bool>,
    b1: Seq<bool>,
    last: bool,
) -> bool {
    let nice = sp.nice_match_length as int;
    match level.strategy {
        InternalStrategy::Store => true,
        InternalStrategy::StaticTurbo => static_turbo::static_coded::<TurboMatchfinder>(
            b0,
            b1,
            h,
            start,
            last,
            room,
            nice,
        ),
        InternalStrategy::Turbo => fastest::fast_coded::<TurboMatchfinder>(
            fastest::setup_at::<TurboMatchfinder>(h, start, nice, false),
            h,
            b0,
            b1,
            last,
        ),
        InternalStrategy::FastHt => fastest::fast_coded::<FastHtMatchfinder>(
            fastest::setup_at::<FastHtMatchfinder>(h, start, nice, false),
            h,
            b0,
            b1,
            last,
        ),
        InternalStrategy::HtGreedy => fastest::fast_coded::<HtMatchfinder>(
            fastest::setup_at::<HtMatchfinder>(h, start, nice, true),
            h,
            b0,
            b1,
            last,
        ),
        InternalStrategy::Greedy => chain_model::chain_coded(
            chain_model::setup_at(h, start, sp, Lookahead::Greedy),
            h,
            b0,
            b1,
            last,
        ),
        InternalStrategy::Lazy => chain_model::chain_coded(
            chain_model::setup_at(h, start, sp, Lookahead::Lazy),
            h,
            b0,
            b1,
            last,
        ),
        InternalStrategy::Lazy2 => chain_model::chain_coded(
            chain_model::setup_at(h, start, sp, Lookahead::Lazy2),
            h,
            b0,
            b1,
            last,
        ),
        InternalStrategy::NearOptimal => exists|m: Memory|
            #[trigger] near_model::near_coded(
                near_model::setup_at(
                    h,
                    start,
                    nice,
                    sp.max_search_depth as int,
                    near_model::tuning_of(level),
                    m,
                ),
                h,
                b0,
                b1,
                last,
            ),
    }
}

/// The bytes hold what the strategy writes of the data from `start` on: stored blocks only,
/// or what it codes; in that case, if `last` is not set, an empty stored block follows.
pub open spec fn holds_by(
    level: CompressionLevel,
    sp: SearchParams,
    room: int,
    data: Seq<u8>,
    h: Seq<u8>,
    start: int,
    last: bool,
) -> bool {
    if level.strategy == InternalStrategy::Store {
        crate::bits::to_bits(data) == stored::with_stored(Seq::empty(), h.skip(start), last)
    } else {
        exists|b: Seq<bool>|
            {
                &&& #[trigger] coded_by(level, sp, room, h, start, Seq::empty(), b, last)
                &&& crate::bits::to_bits(data) == if last {
                    pack::padded(b)
                } else {
                    stored::with_stored(b, Seq::empty(), false)
                }
            }
    }
}

/// The bytes hold what a compressor of this level writes of the data from `start` on into
/// an output of `room` bytes.
#[verifier::opaque]
pub open spec fn level_writes(
    level: CompressionLevel,
    room: int,
    data: Seq<u8>,
    h: Seq<u8>,
    start: int,
    last: bool,
) -> bool {
    exists|sp: SearchParams|
        {
            &&& level_params(level, sp)
            &&& #[trigger] holds_by(level, sp, room, data, h, start, last)
        }
}

/// A first part of the blocks that a strategy makes of the data from `start` on takes, with
/// the bits `b0` before it, more than `room` bytes.
#[verifier::opaque]
pub open spec fn spills_by(
    level: CompressionLevel,
    sp: SearchParams,
    room: int,
    h: Seq<u8>,
    start: int,
    b0: Seq<bool>,
    last: bool,
) -> bool {
    let nice = sp.nice_match_length as int;
    match level.strategy {
        InternalStrategy::Store => true,
        InternalStrategy::StaticTurbo => static_turbo::static_spills::<TurboMatchfinder>(
            b0,
            h,
            start,
            last,
            room,
            nice,
        ),
        InternalStrategy::Turbo => fastest::spills::<TurboMatchfinder>(
            fastest::setup_at::<TurboMatchfinder>(h, start, nice, false),
            h,
            b0,
            last,
            room,
        ),
        InternalStrategy::FastHt => fastest::spills::<FastHtMatchfinder>(
            fastest::setup_at::<FastHtMatchfinder>(h, start, nice, false),
            h,
            b0,
            last,
            room,
        ),
        InternalStrategy::HtGreedy => fastest::spills::<HtMatchfinder>(
            fastest::setup_at::<HtMatchfinder>(h, start, nice, true),
            h,
            b0,
            last,
            room,
        ),
        InternalStrategy::Greedy => chain_model::spills(
            chain_model::setup_at(h, start, sp, Lookahead::Greedy),
            h,
            b0,
            last,
            room,
        ),
        InternalStrategy::Lazy => chain_model::spills(
            chain_model::setup_at(h, start, sp, Lookahead::Lazy),
            h,
            b0,
            last,
            room,
        ),
        InternalStrategy::Lazy2 => chain_model::spills(
            chain_model::setup_at(h, start, sp, Lookahead::Lazy2),
            h,
            b0,
            last,
            room,
        ),
        InternalStrategy::NearOptimal => exists|m: Memory|
            #[trigger] near_model::spills(
                near_model::setup_at(
                    h,
                    start,
                    nice,
                    sp.max_search_depth as int,
                    near_model::tuning_of(level),
                    m,
                ),
                h,
                b0,
                last,
                room,
            ),
    }
}

/// What the strategy writes of the data from `start` on takes more than `room` bytes, or a
/// first part of it does; if `last` is not set, the empty stored block counts too.
pub open spec fn overruns_by(
    level: CompressionLevel,
    sp: SearchParams,
    room: int,
    h: Seq<u8>,
    start: int,
    last: bool,
) -> bool {
    ||| spills_by(level, sp, room, h, start, Seq::empty(), last)
    ||| exists|b: Seq<bool>|
        {
            &&& #[trigger] coded_by(level, sp, room, h, start, Seq::empty(), b, last)
            &&& block::too_long(
                if last {
                    b
                } else {
                    stored::with_stored(b, Seq::empty(), false)
                },
                room,
            )
        }
}

/// What a compressor of this level writes of the data from `start` on takes more than
/// `room` bytes.
#[verifier::opaque]
pub open spec fn level_overruns(
    level: CompressionLevel,
    room: int,
    h: Seq<u8>,
    start: int,
    last: bool,
) -> bool {
    exists|sp: SearchParams|
        {
            &&& level_params(level, sp)
            &&& #[trigger] overruns_by(level, sp, room, h, start, last)
        }
}

impl Compressor {
    /// The bytes hold what the compressor writes of the data from `start` on into an
    /// output of `room` bytes.
    pub open spec fn writes(
        &self,
        room: int,
        data: Seq<u8>,
        h: Seq<u8>,
        start: int,
        last: bool,
    ) -> bool {
        level_writes(self.level, room, data, h, start, last)
    }

    /// The input is long enough to be compressed, and each of its blocks is written in the
    /// cheapest of the three ways.
    pub open spec fn codes_input(&self, input: Seq<u8>) -> bool {
        input.len() > self.max_passthrough_size && codes_blocks(self.level.strategy)
    }
}

impl Compressor {
    /// The compressor has what its level needs, and the matchfinders know only
    /// positions that incremental compression has passed.
    pub open spec fn wf(&self) -> bool {
        &&& self.level.wf()
        &&& level_params(self.level, self.params)
        &&& self.max_passthrough_size == passthrough_of(self.level)
        &&& self.codes.bounded()
        &&& self.static_codes.is_static()
        &&& self.level.strategy == InternalStrategy::Turbo ==> self.turbo_mf is Some
        &&& self.level.strategy == InternalStrategy::FastHt ==> self.fast_ht_mf is Some
        &&& self.ht_mf is Some <==> self.level.strategy == InternalStrategy::HtGreedy
        &&& self.hc_mf is Some <==> (self.level.strategy == InternalStrategy::Greedy
            || self.level.strategy == InternalStrategy::Lazy || self.level.strategy
            == InternalStrategy::Lazy2)
        &&& self.level.strategy == InternalStrategy::NearOptimal ==> self.near_optimal is Some
        &&& (self.turbo_mf matches Some(mf) ==> fastest::valid(mf))
        &&& (self.fast_ht_mf matches Some(mf) ==> fastest::valid(mf))
        &&& (self.ht_mf matches Some(mf) ==> mf.wf(
            self.incremental_base_offset as int,
            self.incremental_pos as int,
        ))
        &&& (self.hc_mf matches Some(mf) ==> mf.wf(
            self.incremental_base_offset as int,
            self.incremental_pos as int,
        ))
        &&& (self.near_optimal matches Some(ns) ==> optimal::valid(ns) && ns.tuning()
            == near_model::tuning_of(self.level))
        &&& self.incremental_base_offset <= self.incremental_pos
    }

    /// Nothing that is set up once has changed.
    pub open spec fn same_setup(&self, o: Self) -> bool {
        &&& self.level == o.level
        &&& self.params == o.params
    }

    /// Create a new compressor at the given compression level.
    pub fn new(level: CompressionLevel) -> (r: Self)
        requires
            level.wf(),
        ensures
            r.wf(),
            r.level == level,
            r.incremental_pos == 0,
            incremental::forgotten(r),
            r.estimate_codes() == r.static_codes,
    {
        let strategy: InternalStrategy = level.strategy();
        let number: usize = level.level() as usize;
        let max_passthrough_size: usize = if strategy == InternalStrategy::Store {
            usize::MAX
        } else if number * 4 >= 55 {
            0
        } else {
            55 - number * 4
        };
        let mut freqs: DeflateFreqs = DeflateFreqs::default();
        let mut static_codes: DeflateCodes = DeflateCodes::default();
        init_static_codes(&mut freqs, &mut static_codes);
        freqs.reset();
        let seqs: Vec<Sequence> = Vec::new();
        let turbo_mf: Option<TurboMatchfinder> = if strategy == InternalStrategy::Turbo || strategy
            == InternalStrategy::StaticTurbo {
            Some(TurboMatchfinder::new())
        } else {
            None
        };
        let fast_ht_mf: Option<FastHtMatchfinder> = if strategy == InternalStrategy::FastHt {
            Some(FastHtMatchfinder::new())
        } else {
            None
        };
        let ht_mf: Option<HtMatchfinder> = if strategy == InternalStrategy::HtGreedy {
            Some(HtMatchfinder::new())
        } else {
            None
        };
        let hc_mf: Option<HcMatchfinder> = if strategy == InternalStrategy::Greedy || strategy
            == InternalStrategy::Lazy || strategy == InternalStrategy::Lazy2 {
            Some(HcMatchfinder::new())
        } else {
            None
        };
        let near_optimal: Option<NearOptimalState> = if strategy == InternalStrategy::NearOptimal {
            let p: (u32, u32, u32, u32) = level.near_optimal_params();
            Some(NearOptimalState::new(p.0, p.1, p.2, p.3))
        } else {
            None
        };
        proof {
            assert(turbo_mf is Some ==> turbo_mf->0.wf(0, 0));
            assert(fast_ht_mf is Some ==> fast_ht_mf->0.wf(0, 0));
            assert(near_optimal is Some ==> near_optimal->0.bt_mf.wf(0, 0));
        }
        Compressor {
            level,
            params: level.compression_params(),
            max_passthrough_size,
            parse: Parse { freqs, split_stats: BlockSplitStats::new(), seqs },
            codes: DeflateCodes::default(),
            static_codes,
            turbo_mf,
            fast_ht_mf,
            ht_mf,
            hc_mf,
            near_optimal,
            incremental_pos: 0,
            incremental_base_offset: 0,
        }
    }

    /// Compress the input from `chunk_start` on with the level's strategy.
    fn run<S: Stop>(
        &mut self,
        os: &mut OutputBitstream<'_>,
        input: &[u8],
        chunk_start: usize,
        force_nonfinal: bool,
        stop: &S,
    ) -> (r: Result<(), CompressionError>)
        requires
            old(self).wf(),
            old(self).level.strategy != InternalStrategy::Store,
            old(os).flushed(),
            chunk_start < input@.len(),
        ensures
            final(self).wf(),
            final(self).same_setup(*old(self)),
            final(self).incremental_pos == old(self).incremental_pos,
            final(os).flushed(),
            final(os).buf@.len() == old(os).buf@.len(),
            final(final(os).buf)@ == final(old(os).buf)@,
            r is Ok ==> progress::progress(
                *old(os),
                *final(os),
                input@,
                chunk_start as int,
                input@.len() as int,
                !force_nonfinal,
            ),
            r is Ok && fills_blocks(old(self).level) ==> progress::tight(
                *old(os),
                *final(os),
                input@,
                chunk_start as int,
                input@.len() as int,
            ),
            r is Ok && !final(os).overflow ==> coded_by(
                old(self).level,
                old(self).params,
                old(os).buf@.len() as int,
                input@,
                chunk_start as int,
                old(os).bits(),
                final(os).bits(),
                !force_nonfinal,
            ),
            r is Ok && !final(os).overflow && codes_blocks(old(self).level.strategy) ==> progress::coded(
                old(os).bits(),
                final(os).bits(),
                input@,
                chunk_start as int,
                input@.len() as int,
                !force_nonfinal,
            ),
            r is Ok && final(os).overflow && !old(os).overflow ==> spills_by(
                old(self).level,
                old(self).params,
                old(os).buf@.len() as int,
                input@,
                chunk_start as int,
                old(os).bits(),
                !force_nonfinal,
            ),
            r matches Err(e) ==> e is Stopped && !stop.never_stops(),
    {
        proof {
            reveal(coded_by);
            reveal(spills_by);
            lemma_depths(self.level, self.params);
        }
        let nice: u32 = self.params.nice_match_length;
        match self.level.strategy {
            InternalStrategy::StaticTurbo => match &mut self.turbo_mf {
                Some(mf) => compress_static(
                    mf,
                    os,
                    input,
                    chunk_start,
                    force_nonfinal,
                    nice,
                    &self.static_codes,
                    stop,
                ),
                None => Ok(()),
            },
            InternalStrategy::Turbo => match &mut self.turbo_mf {
                Some(mf) => compress_hashed(
                    mf,
                    os,
                    input,
                    chunk_start,
                    force_nonfinal,
                    nice,
                    false,
                    &mut self.parse.freqs,
                    &mut self.codes,
                    &self.static_codes,
                    &mut self.parse.seqs,
                    stop,
                ),
                None => Ok(()),
            },
            InternalStrategy::FastHt => match &mut self.fast_ht_mf {
                Some(mf) => compress_hashed(
                    mf,
                    os,
                    input,
                    chunk_start,
                    force_nonfinal,
                    nice,
                    false,
                    &mut self.parse.freqs,
                    &mut self.codes,
                    &self.static_codes,
                    &mut self.parse.seqs,
                    stop,
                ),
                None => Ok(()),
            },
            InternalStrategy::HtGreedy => match &mut self.ht_mf {
                Some(mf) => {
                    assert(mf.wf(
                        self.incremental_base_offset as int,
                        self.incremental_pos as int,
                    ));
                    let r: Result<(), CompressionError> = compress_hashed(
                        mf,
                        os,
                        input,
                        chunk_start,
                        force_nonfinal,
                        nice,
                        true,
                        &mut self.parse.freqs,
                        &mut self.codes,
                        &self.static_codes,
                        &mut self.parse.seqs,
                        stop,
                    );
                    mf.init();
                    r
                },
                None => Ok(()),
            },
            InternalStrategy::Greedy => self.run_chained(
                os,
                input,
                chunk_start,
                force_nonfinal,
                Lookahead::Greedy,
                stop,
            ),
            InternalStrategy::Lazy => self.run_chained(
                os,
                input,
                chunk_start,
                force_nonfinal,
                Lookahead::Lazy,
                stop,
            ),
            InternalStrategy::Lazy2 => self.run_chained(
                os,
                input,
                chunk_start,
                force_nonfinal,
                Lookahead::Lazy2,
                stop,
            ),
            InternalStrategy::NearOptimal => match &mut self.near_optimal {
                Some(ns) => compress_optimal(
                    ns,
                    os,
                    input,
                    chunk_start,
                    force_nonfinal,
                    &self.params,
                    &mut self.parse.split_stats,
                    &mut self.parse.freqs,
                    &mut self.codes,
                    &self.static_codes,
                    stop,
                ),
                None => Ok(()),
            },
            InternalStrategy::Store => Ok(()),
        }
    }

    /// Compress the input from `chunk_start` on with the hash chains matchfinder.
    fn run_chained<S: Stop>(
        &mut self,
        os: &mut OutputBitstream<'_>,
        input: &[u8],
        chunk_start: usize,
        force_nonfinal: bool,
        look: Lookahead,
        stop: &S,
    ) -> (r: Result<(), CompressionError>)
        requires
            old(self).wf(),
            old(self).hc_mf is Some,
            old(self).params.max_search_depth >= 4,
            old(os).flushed(),
            chunk_start < input@.len(),
        ensures
            final(self).wf(),
            final(self).same_setup(*old(self)),
            final(self).incremental_pos == old(self).incremental_pos,
            final(os).flushed(),
            final(os).buf@.len() == old(os).buf@.len(),
            final(final(os).buf)@ == final(old(os).buf)@,
            r is Ok ==> progress::progress(
                *old(os),
                *final(os),
                input@,
                chunk_start as int,
                input@.len() as int,
                !force_nonfinal,
            ),
            r is Ok ==> progress::tight(
                *old(os),
                *final(os),
                input@,
                chunk_start as int,
                input@.len() as int,
            ),
            r is Ok && !final(os).overflow ==> progress::coded(
                old(os).bits(),
                final(os).bits(),
                input@,
                chunk_start as int,
                input@.len() as int,
                !force_nonfinal,
            ),
            r is Ok && !final(os).overflow ==> chain_model::chain_coded(
                chain_model::setup_at(input@, chunk_start as int, old(self).params, look),
                input@,
                old(os).bits(),
                final(os).bits(),
                !force_nonfinal,
            ),
            r is Ok && final(os).overflow && !old(os).overflow ==> chain_model::spills(
                chain_model::setup_at(input@, chunk_start as int, old(self).params, look),
                input@,
                old(os).bits(),
                !force_nonfinal,
                old(os).buf@.len() as int,
            ),
            r matches Err(e) ==> e is Stopped && !stop.never_stops(),
    {
        match &mut self.hc_mf {
            Some(mf) => {
                assert(mf.wf(self.incremental_base_offset as int, self.incremental_pos as int));
                let r: Result<(), CompressionError> = compress_chained(
                    mf,
                    os,
                    input,
                    chunk_start,
                    force_nonfinal,
                    &self.params,
                    look,
                    &mut self.parse,
                    &mut self.codes,
                    &self.static_codes,
                    stop,
                );
                mf.init();
                r
            },
            None => Ok(()),
        }
    }

    /// Compress data in raw DEFLATE format.
    ///
    /// The output decompresses to the input, and never takes more room than
    /// [`deflate_compress_bound`](Self::deflate_compress_bound) says.
    pub fn deflate_compress<S: Stop>(
        &mut self,
        input: &[u8],
        output: &mut [u8],
        stop: S,
    ) -> (r: Result<usize, CompressionError>)
        requires
            old(self).wf(),
        ensures
            final(self).wf(),
            final(self).same_setup(*old(self)),
            final(self).incremental_pos == old(self).incremental_pos,
            final(output)@.len() == old(output)@.len(),
            r matches Ok(n) ==> {
                &&& n <= old(output)@.len()
                &&& n <= progress::bound(input@.len() as int)
                &&& pack::packs(final(output)@.take(n as int), Seq::empty(), input@, true)
                &&& input@.len() > old(self).max_passthrough_size ==> old(self).writes(
                    old(output)@.len() as int,
                    final(output)@.take(n as int),
                    input@,
                    0,
                    true,
                )
                &&& old(self).codes_input(input@) ==> pack::holds_coded(
                    final(output)@.take(n as int),
                    input@,
                    0,
                    true,
                )
            },
            r matches Err(CompressionError::InsufficientSpace) ==> old(output)@.len()
                < progress::bound(input@.len() as int),
            input@.len() > old(self).max_passthrough_size ==> (r matches Err(
                CompressionError::InsufficientSpace,
            ) ==> level_overruns(
                old(self).level,
                old(output)@.len() as int,
                input@,
                0,
                true,
            )),
            r matches Err(CompressionError::Stopped(_)) ==> !stop.never_stops(),
            input@.len() <= old(self).max_passthrough_size ==> r == if pack::stored_size(
                input@.len() as int,
            ) <= old(output)@.len() {
                Ok::<usize, CompressionError>(pack::stored_size(input@.len() as int) as usize)
            } else {
                Err(CompressionError::InsufficientSpace)
            },
            input@.len() <= old(self).max_passthrough_size ==> (r matches Ok(n)
                ==> crate::bits::to_bits(final(output)@.take(n as int)) == stored::with_stored(
                Seq::empty(),
                input@,
                true,
            )),
    {
        proof {
            pack::lemma_stored_in_bound(input@.len() as int);
        }
        if input.len() <= self.max_passthrough_size {
            return deflate_compress_none(input, output);
        }
        assert(input@.take(0) =~= Seq::<u8>::empty());
        self.compress_from(input, 0, true, output, &stop, Ghost(Seq::empty()))
    }

    /// Compress the input from `chunk_start` on to whole bytes.
    ///
    /// If it is not the last chunk, an empty stored block is appended to byte-align
    /// the output for concatenation with subsequent chunks.
    fn compress_from<S: Stop>(
        &mut self,
        input: &[u8],
        chunk_start: usize,
        is_last: bool,
        output: &mut [u8],
        stop: &S,
        pre: Ghost<Seq<u8>>,
    ) -> (r: Result<usize, CompressionError>)
        requires
            old(self).wf(),
            old(self).level.strategy != InternalStrategy::Store,
            chunk_start < input@.len(),
            pre@ == input@.take(chunk_start as int),
        ensures
            final(self).wf(),
            final(self).same_setup(*old(self)),
            final(self).incremental_pos == old(self).incremental_pos,
            final(output)@.len() == old(output)@.len(),
            r matches Ok(n) ==> {
                &&& n <= old(output)@.len()
                &&& n <= progress::bound(input@.len() - chunk_start) + if is_last {
                    0int
                } else {
                    5
                }
                &&& fills_blocks(old(self).level) ==> n <= chunk_room(
                    input@.len() - chunk_start,
                    is_last,
                )
                &&& pack::packs(final(output)@.take(n as int), pre@, input@, is_last)
                &&& !is_last ==> pack::packs_whole(final(output)@.take(n as int), pre@, input@)
                &&& old(self).writes(
                    old(output)@.len() as int,
                    final(output)@.take(n as int),
                    input@,
                    chunk_start as int,
                    is_last,
                )
                &&& is_last && codes_blocks(old(self).level.strategy) ==> pack::holds_coded(
                    final(output)@.take(n as int),
                    input@,
                    chunk_start as int,
                    true,
                )
            },
            r matches Err(CompressionError::InsufficientSpace) ==> old(output)@.len()
                < progress::bound(input@.len() - chunk_start) + if is_last {
                0int
            } else {
                5
            },
            r matches Err(CompressionError::InsufficientSpace) ==> level_overruns(
                old(self).level,
                old(output)@.len() as int,
                input@,
                chunk_start as int,
                is_last,
            ),
            r matches Err(CompressionError::Stopped(_)) ==> !stop.never_stops(),
    {
        let ghost h = input@;
        let total: usize = input.len();
        let mut os: OutputBitstream<'_> = OutputBitstream::new(output);
        let ghost o0 = os;
        assert(o0.bits() =~= Seq::empty());
        match self.run(&mut os, input, chunk_start, !is_last, stop) {
            Ok(_) => {},
            Err(e) => {
                return Err(e);
            },
        }
        let ghost o1 = os;
        proof {
            emit::lemma_chain_start(pre@);
            assert(h.take(h.len() as int) =~= h);
            if !os.overflow {
                emit::lemma_extends_apply(
                    pre@,
                    o0.bits(),
                    pre@,
                    o1.bits(),
                    h,
                    is_last,
                );
            }
        }
        if os.overflow {
            proof {
                reveal(level_overruns);
                assert(overruns_by(
                    old(self).level,
                    old(self).params,
                    old(output)@.len() as int,
                    h,
                    chunk_start as int,
                    is_last,
                ));
            }
            return Err(CompressionError::InsufficientSpace);
        }
        if !is_last {
            put_stored(&mut os, input, total, 0, false);
            proof {
                let p = o1.bits().len() as int;
                stored::lemma_stored_bits_len(p, h.subrange(total as int, total + 0), false);
                stored::lemma_stored_block(o1.bits(), h, total as int, 0, false);
                assert(h.subrange(total as int, total + 0) =~= Seq::empty());
                if !os.overflow {
                    emit::lemma_extends_apply(pre@, o1.bits(), h, os.bits(), h, false);
                }
            }
        }
        let ghost b = os.bits();
        match finish_bytes(&mut os) {
            Some(n) => {
                proof {
                    assert(pack::packed(os.buf@.take(n as int), pre@, h, is_last, b));
                    if is_last && codes_blocks(old(self).level.strategy) {
                        assert(progress::coded(
                            Seq::empty(),
                            b,
                            h,
                            chunk_start as int,
                            h.len() as int,
                            true,
                        ));
                    }
                    if !is_last {
                        assert(b.len() % 8 == 0);
                        assert(b =~= crate::bits::to_bits(os.buf@.take(n as int)));
                    }
                    assert(coded_by(
                        old(self).level,
                        old(self).params,
                        old(output)@.len() as int,
                        h,
                        chunk_start as int,
                        Seq::empty(),
                        o1.bits(),
                        is_last,
                    ));
                    assert(holds_by(
                        old(self).level,
                        old(self).params,
                        old(output)@.len() as int,
                        os.buf@.take(n as int),
                        h,
                        chunk_start as int,
                        is_last,
                    ));
                    reveal(level_writes);
                }
                Ok(n)
            },
            None => {
                proof {
                    reveal(level_overruns);
                    if !is_last {
                        stored::lemma_with_stored_len(o1.bits(), Seq::empty(), false);
                    }
                    assert(coded_by(
                        old(self).level,
                        old(self).params,
                        old(output)@.len() as int,
                        h,
                        chunk_start as int,
                        Seq::empty(),
                        o1.bits(),
                        is_last,
                    ));
                    assert(overruns_by(
                        old(self).level,
                        old(self).params,
                        old(output)@.len() as int,
                        h,
                        chunk_start as int,
                        is_last,
                    ));
                }
                Err(CompressionError::InsufficientSpace)
            },
        }
    }

    /// Compress a chunk of input: what comes before `chunk_start` is not written,
    /// but may be matched.
    ///
    /// If `is_last_chunk` is false, a sync flush (empty stored block) is appended
    /// to byte-align the output for concatenation with subsequent chunks.
    pub fn deflate_compress_chunk<S: Stop>(
        &mut self,
        input: &[u8],
        chunk_start: usize,
        is_last_chunk: bool,
        output: &mut [u8],
        stop: &S,
    ) -> (r: Result<usize, CompressionError>)
        requires
            old(self).wf(),
            chunk_start < input@.len(),
        ensures
            final(self).wf(),
            final(self).same_setup(*old(self)),
            final(output)@.len() == old(output)@.len(),
            r matches Ok(n) ==> {
                &&& n <= old(output)@.len()
                &&& n <= progress::bound(input@.len() - chunk_start) + if is_last_chunk {
                    0int
                } else {
                    5
                }
                &&& fills_blocks(old(self).level) ==> n <= chunk_room(
                    input@.len() - chunk_start,
                    is_last_chunk,
                )
                &&& pack::packs(
                    final(output)@.take(n as int),
                    input@.take(chunk_start as int),
                    input@,
                    is_last_chunk,
                )
                &&& !is_last_chunk ==> pack::packs_whole(
                    final(output)@.take(n as int),
                    input@.take(chunk_start as int),
                    input@,
                )
                &&& old(self).writes(
                    old(output)@.len() as int,
                    final(output)@.take(n as int),
                    input@,
                    chunk_start as int,
                    is_last_chunk,
                )
                &&& is_last_chunk && codes_blocks(old(self).level.strategy) ==> pack::holds_coded(
                    final(output)@.take(n as int),
                    input@,
                    chunk_start as int,
                    true,
                )
            },
            r matches Err(CompressionError::InsufficientSpace) ==> old(output)@.len()
                < progress::bound(input@.len() - chunk_start) + if is_last_chunk {
                0int
            } else {
                5
            },
            old(self).level.strategy != InternalStrategy::Store ==> (r matches Err(
                CompressionError::InsufficientSpace,
            ) ==> level_overruns(
                old(self).level,
                old(output)@.len() as int,
                input@,
                chunk_start as int,
                is_last_chunk,
            )),
            r matches Err(CompressionError::Stopped(_)) ==> !stop.never_stops(),
            old(self).level.strategy == InternalStrategy::Store ==> r == if pack::stored_size(
                input@.len() - chunk_start,
            ) <= old(output)@.len() {
                Ok::<usize, CompressionError>(
                    pack::stored_size(input@.len() - chunk_start) as usize,
                )
            } else {
                Err(CompressionError::InsufficientSpace)
            },
    {
        proof {
            reveal(level_writes);
            pack::lemma_stored_in_bound(input@.len() - chunk_start);
        }
        if self.level.strategy == InternalStrategy::Store {
            let r: Result<usize, CompressionError> = deflate_compress_none_chunk(
                input,
                chunk_start,
                output,
                is_last_chunk,
            );
            proof {
                if let Ok(n) = r {
                    assert(holds_by(
                        self.level,
                        self.params,
                        old(output)@.len() as int,
                        output@.take(n as int),
                        input@,
                        chunk_start as int,
                        is_last_chunk,
                    ));
                }
            }
            return r;
        }
        self.compress_from(
            input,
            chunk_start,
            is_last_chunk,
            output,
            stop,
            Ghost(input@.take(chunk_start as int)),
        )
    }

    /// Compute the maximum compressed size for raw DEFLATE output.
    pub fn deflate_compress_bound(input_len: usize) -> (r: usize)
        requires
            progress::bound(input_len as int) <= usize::MAX,
        ensures
            r == progress::bound(input_len as int),
    {
        if input_len == 0 {
            return 5;
        }
        let max_blocks: usize = (input_len - 1) / 5000 + 1;
        assert(max_blocks == (input_len + 4999) / 5000);
        5 * max_blocks + input_len
    }

    /// Compute the maximum compressed size for zlib output.
    pub fn zlib_compress_bound(input_len: usize) -> (r: usize)
        requires
            progress::bound(input_len as int) + 6 <= usize::MAX,
        ensures
            r == progress::bound(input_len as int) + 6,
    {
        Self::deflate_compress_bound(input_len) + 6
    }

    /// Compute the maximum compressed size for gzip output.
    pub fn gzip_compress_bound(input_len: usize) -> (r: usize)
        requires
            progress::bound(input_len as int) + 18 <= usize::MAX,
        ensures
            r == progress::bound(input_len as int) + 18,
    {
        Self::deflate_compress_bound(input_len) + 18
    }
}

} // verus!
