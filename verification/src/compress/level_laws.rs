//! What the compression levels do.

use crate::compress::block;
use crate::compress::chain_model;
use crate::compress::chains::{Lookahead, SearchParams};
use crate::compress::compressor;
use crate::compress::fastest;
use crate::compress::level::{CompressionLevel, InternalStrategy};
use crate::compress::near_model;
use crate::compress::near_model::Memory;
use crate::compress::progress;
use crate::matchfinder::fast_ht::FastHtMatchfinder;
use crate::matchfinder::ht::HtMatchfinder;
use crate::matchfinder::turbo::TurboMatchfinder;
use crate::matchfinder::HashMatchfinder;
use vstd::prelude::*;

verus! {

/// Each strategy is run as its name says: with a hash table of one entry or of two, or with
/// hash chains and no look ahead, a look at one more position or at two.
pub proof fn law_strategy_runs(
    level: CompressionLevel,
    sp: SearchParams,
    room: int,
    h: Seq<u8>,
    start: int,
    b0: Seq<bool>,
    b1: Seq<bool>,
    last: bool,
)
    requires
        compressor::coded_by(level, sp, room, h, start, b0, b1, last),
    ensures
        ({
            let nice = sp.nice_match_length as int;
            &&& level.strategy == InternalStrategy::Turbo ==> fastest::fast_coded::<
                TurboMatchfinder,
            >(fastest::setup_at::<TurboMatchfinder>(h, start, nice, false), h, b0, b1, last)
            &&& level.strategy == InternalStrategy::FastHt ==> fastest::fast_coded::<
                FastHtMatchfinder,
            >(fastest::setup_at::<FastHtMatchfinder>(h, start, nice, false), h, b0, b1, last)
            &&& level.strategy == InternalStrategy::HtGreedy ==> fastest::fast_coded::<
                HtMatchfinder,
            >(fastest::setup_at::<HtMatchfinder>(h, start, nice, true), h, b0, b1, last)
            &&& level.strategy == InternalStrategy::Greedy ==> chain_model::chain_coded(
                chain_model::setup_at(h, start, sp, Lookahead::Greedy),
                h,
                b0,
                b1,
                last,
            )
            &&& level.strategy == InternalStrategy::Lazy ==> chain_model::chain_coded(
                chain_model::setup_at(h, start, sp, Lookahead::Lazy),
                h,
                b0,
                b1,
                last,
            )
            &&& level.strategy == InternalStrategy::Lazy2 ==> chain_model::chain_coded(
                chain_model::setup_at(h, start, sp, Lookahead::Lazy2),
                h,
                b0,
                b1,
                last,
            )
        }),
{
    reveal(compressor::coded_by);
}

/// Blocks with hash chains are blocks.
proof fn lemma_chain_codes(
    c: chain_model::Setup,
    h: Seq<u8>,
    b0: Seq<bool>,
    b1: Seq<bool>,
    last: bool,
    k: nat,
)
    requires
        chain_model::blocks_written(c, h, b0, b1, last, k),
    ensures
        progress::coded(
            b0,
            b1,
            h,
            c.place.next,
            chain_model::after_blocks(c, h, k).place.next,
            last,
        ),
        c.place.next <= chain_model::after_blocks(c, h, k).place.next,
    decreases k,
{
    if k == 0 {
        progress::lemma_coded_start(b0, h, c.place.next, last);
    } else {
        let b = choose|b: Seq<bool>|
            {
                &&& chain_model::blocks_written(c, h, b0, b, last, (k - 1) as nat)
                &&& #[trigger] chain_model::block_written(c, h, b, b1, last, k)
            };
        lemma_chain_codes(c, h, b0, b, last, (k - 1) as nat);
        let begin = chain_model::after_blocks(c, h, (k - 1) as nat).place.next;
        let w = chain_model::after_blocks(c, h, k);
        assert(block::coded_as(
            b,
            b1,
            h,
            begin,
            w.place.next - begin,
            w.its,
            last && w.place.next == h.len(),
        ));
        progress::lemma_coded_step(
            b0,
            b,
            b1,
            h,
            c.place.next,
            begin,
            w.place.next - begin,
            last,
        );
    }
}

/// Blocks with a hash table are blocks.
proof fn lemma_fast_codes<M: HashMatchfinder>(
    c: fastest::Setup,
    h: Seq<u8>,
    b0: Seq<bool>,
    b1: Seq<bool>,
    last: bool,
    k: nat,
)
    requires
        fastest::blocks_written::<M>(c, h, b0, b1, last, k),
    ensures
        progress::coded(
            b0,
            b1,
            h,
            c.start,
            fastest::after_blocks::<M>(c, h, k).next,
            last,
        ),
        c.start <= fastest::after_blocks::<M>(c, h, k).next,
    decreases k,
{
    if k == 0 {
        progress::lemma_coded_start(b0, h, c.start, last);
    } else {
        let b = choose|b: Seq<bool>|
            {
                &&& fastest::blocks_written::<M>(c, h, b0, b, last, (k - 1) as nat)
                &&& #[trigger] fastest::block_written::<M>(c, h, b, b1, last, k)
            };
        lemma_fast_codes::<M>(c, h, b0, b, last, (k - 1) as nat);
        let begin = fastest::after_blocks::<M>(c, h, (k - 1) as nat).next;
        let run = fastest::after_blocks::<M>(c, h, k);
        assert(block::coded_as(
            b,
            b1,
            h,
            begin,
            run.next - begin,
            run.its,
            last && run.next == h.len(),
        ));
        progress::lemma_coded_step(b0, b, b1, h, c.start, begin, run.next - begin, last);
    }
}

/// Blocks with binary trees are blocks.
proof fn lemma_near_codes(
    c: near_model::Setup,
    h: Seq<u8>,
    b0: Seq<bool>,
    b1: Seq<bool>,
    last: bool,
    k: nat,
)
    requires
        near_model::blocks_written(c, h, b0, b1, last, k),
    ensures
        progress::coded(
            b0,
            b1,
            h,
            c.first.begin,
            near_model::after_blocks(c, h, k).begin,
            last,
        ),
        c.first.begin <= near_model::after_blocks(c, h, k).begin,
    decreases k,
{
    if k == 0 {
        progress::lemma_coded_start(b0, h, c.first.begin, last);
    } else {
        let b = choose|b: Seq<bool>|
            {
                &&& near_model::blocks_written(c, h, b0, b, last, (k - 1) as nat)
                &&& #[trigger] near_model::block_written(c, h, b, b1, last, k)
            };
        lemma_near_codes(c, h, b0, b, last, (k - 1) as nat);
        let s = near_model::after_blocks(c, h, (k - 1) as nat);
        let (t, its) = near_model::near_block(s, h, c.depth, c.tuning);
        assert(block::coded_as(
            b,
            b1,
            h,
            s.begin,
            t.begin - s.begin,
            its,
            last && t.begin == h.len(),
        ));
        progress::lemma_coded_step(
            b0,
            b,
            b1,
            h,
            c.first.begin,
            s.begin,
            t.begin - s.begin,
            last,
        );
    }
}

/// Every effort above 0 writes its blocks as parses of the data, each in the cheapest of the
/// three ways.
pub proof fn law_effort_codes(
    level: CompressionLevel,
    sp: SearchParams,
    room: int,
    h: Seq<u8>,
    start: int,
    b0: Seq<bool>,
    b1: Seq<bool>,
    last: bool,
)
    requires
        level.wf(),
        level.effort > 0,
        0 <= start <= h.len(),
        compressor::coded_by(level, sp, room, h, start, b0, b1, last),
    ensures
        progress::coded(b0, b1, h, start, h.len() as int, last),
{
    reveal(compressor::coded_by);
    reveal(chain_model::written_to);
    reveal(fastest::written_to);
    reveal(near_model::written_to);
    let nice = sp.nice_match_length as int;
    match level.strategy {
        InternalStrategy::Turbo => {
            lemma_fast_coded::<TurboMatchfinder>(
                fastest::setup_at::<TurboMatchfinder>(h, start, nice, false),
                h,
                b0,
                b1,
                last,
            );
        },
        InternalStrategy::FastHt => {
            lemma_fast_coded::<FastHtMatchfinder>(
                fastest::setup_at::<FastHtMatchfinder>(h, start, nice, false),
                h,
                b0,
                b1,
                last,
            );
        },
        InternalStrategy::HtGreedy => {
            lemma_fast_coded::<HtMatchfinder>(
                fastest::setup_at::<HtMatchfinder>(h, start, nice, true),
                h,
                b0,
                b1,
                last,
            );
        },
        InternalStrategy::Greedy => {
            lemma_chain_coded(
                chain_model::setup_at(h, start, sp, Lookahead::Greedy),
                h,
                b0,
                b1,
                last,
            );
        },
        InternalStrategy::Lazy => {
            lemma_chain_coded(
                chain_model::setup_at(h, start, sp, Lookahead::Lazy),
                h,
                b0,
                b1,
                last,
            );
        },
        InternalStrategy::Lazy2 => {
            lemma_chain_coded(
                chain_model::setup_at(h, start, sp, Lookahead::Lazy2),
                h,
                b0,
                b1,
                last,
            );
        },
        InternalStrategy::NearOptimal => {
            let tuning = near_model::tuning_of(level);
            let depth = sp.max_search_depth as int;
            let m = choose|m: Memory|
                #[trigger] near_model::near_coded(
                    near_model::setup_at(h, start, nice, depth, tuning, m),
                    h,
                    b0,
                    b1,
                    last,
                );
            let c = near_model::setup_at(h, start, nice, depth, tuning, m);
            let s = choose|s: near_model::Near|
                s.begin == h.len() && #[trigger] near_model::written_to(c, h, b0, b1, last, s);
            let k = choose|k: nat|
                {
                    &&& #[trigger] near_model::blocks_written(c, h, b0, b1, last, k)
                    &&& near_model::after_blocks(c, h, k) == s
                };
            lemma_near_codes(c, h, b0, b1, last, k);
        },
        _ => {},
    }
}

/// All blocks with hash chains are blocks.
proof fn lemma_chain_coded(
    c: chain_model::Setup,
    h: Seq<u8>,
    b0: Seq<bool>,
    b1: Seq<bool>,
    last: bool,
)
    requires
        chain_model::chain_coded(c, h, b0, b1, last),
    ensures
        progress::coded(b0, b1, h, c.place.next, h.len() as int, last),
{
    reveal(chain_model::written_to);
    let p = choose|p: chain_model::Place|
        p.next == h.len() && #[trigger] chain_model::written_to(c, h, b0, b1, last, p);
    let k = choose|k: nat|
        {
            &&& #[trigger] chain_model::blocks_written(c, h, b0, b1, last, k)
            &&& chain_model::after_blocks(c, h, k).place == p
        };
    lemma_chain_codes(c, h, b0, b1, last, k);
}

/// All blocks with a hash table are blocks.
proof fn lemma_fast_coded<M: HashMatchfinder>(
    c: fastest::Setup,
    h: Seq<u8>,
    b0: Seq<bool>,
    b1: Seq<bool>,
    last: bool,
)
    requires
        fastest::fast_coded::<M>(c, h, b0, b1, last),
    ensures
        progress::coded(b0, b1, h, c.start, h.len() as int, last),
{
    reveal(fastest::written_to);
    let (tab, base) = choose|tab: Seq<i16>, base: int| #[trigger]
        fastest::written_to::<M>(c, h, b0, b1, last, h.len() as int, tab, base);
    let k = choose|k: nat|
        {
            let run = fastest::after_blocks::<M>(c, h, k);
            &&& #[trigger] fastest::blocks_written::<M>(c, h, b0, b1, last, k)
            &&& run.next == h.len()
            &&& run.memory.tab == tab
            &&& run.memory.base == base
            &&& k > 0 ==> c.start < h.len()
        };
    lemma_fast_codes::<M>(c, h, b0, b1, last, k);
}

/// What a level writes of a whole input at an effort above 0 is blocks, each of them a parse
/// of its bytes and written in the cheapest of the three ways, filled up to a whole byte.
pub proof fn law_level_codes(level: CompressionLevel, room: int, data: Seq<u8>, h: Seq<u8>) -> (b:
    Seq<bool>)
    requires
        level.wf(),
        level.effort > 0,
        compressor::level_writes(level, room, data, h, 0, true),
    ensures
        progress::coded(Seq::empty(), b, h, 0, h.len() as int, true),
        crate::bits::to_bits(data) == crate::compress::pack::padded(b),
{
    reveal(compressor::level_writes);
    let sp = choose|sp: SearchParams|
        {
            &&& compressor::level_params(level, sp)
            &&& #[trigger] compressor::holds_by(level, sp, room, data, h, 0, true)
        };
    let b = choose|b: Seq<bool>|
        {
            &&& #[trigger] compressor::coded_by(level, sp, room, h, 0, Seq::empty(), b, true)
            &&& crate::bits::to_bits(data) == crate::compress::pack::padded(b)
        };
    law_effort_codes(level, sp, room, h, 0, Seq::empty(), b, true);
    b
}

} // verus!
