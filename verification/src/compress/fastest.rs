//! Fast compression: take the longest match in a hash table, or a literal.

use crate::arith::{min_u32, min_usize};
use crate::compress::bitstream::OutputBitstream;
use crate::compress::block;
use crate::compress::block::{
    begin_block, choose_literal, choose_match, finish_block, DeflateCodes, DeflateFreqs,
};
use crate::compress::items;
use crate::compress::progress;
use crate::compress::progress::{
    choose_max_block_end, dictionary_start, FAST_SEQ_STORE_LENGTH, FAST_SOFT_MAX_BLOCK_LENGTH,
};
use crate::compress::sequences;
use crate::compress::sequences::Sequence;
use crate::error::CompressionError;
use crate::fast_bytes;
use crate::matchfinder;
use crate::matchfinder::{hash_at, HashMatchfinder, Memory, MATCHFINDER_INITVAL};
use crate::stop::Stop;
use vstd::arithmetic::power2::*;
use vstd::prelude::*;

verus! {

/// The matchfinder is in some valid state.
pub open spec fn valid<M: HashMatchfinder>(mf: M) -> bool {
    exists|b: int, n: int| mf.wf(b, n)
}

/// The hash at a position, or 0 where too few bytes follow.
pub open spec fn hash_or_0<M: HashMatchfinder>(h: Seq<u8>, pos: int) -> int {
    if h.len() - pos >= 4 {
        matchfinder::hash_of(fast_bytes::le32(h, pos), M::order_of())
    } else {
        0
    }
}

/// A parse of the data so far: its items, how many of them are matches, where it has got
/// to, and what the matchfinder knows there.
pub struct Run {
    pub its: Seq<(int, int)>,
    pub matches: int,
    pub next: int,
    pub memory: Memory,
}

/// One item more: the match that the matchfinder finds, or a literal if it finds none.
/// Close to the end of the data no match is looked for.
pub open spec fn step<M: HashMatchfinder>(run: Run, h: Seq<u8>, nice: int) -> Run {
    let max = if h.len() - run.next < 258 {
        h.len() - run.next
    } else {
        258
    };
    let nice_len = if max < nice {
        max
    } else {
        nice
    };
    let found = M::found_in(run.memory, h, run.next, max, nice_len);
    let memory = if max < 5 {
        run.memory
    } else {
        M::after_search(run.memory, h, run.next)
    };
    if max < 5 || found.0 <= 0 {
        Run { its: run.its.push((1, 0)), next: run.next + 1, memory, ..run }
    } else {
        Run {
            its: run.its.push(found),
            matches: run.matches + 1,
            next: run.next + found.0,
            memory: M::after_skip(memory, h, run.next + 1, found.0 - 1),
        }
    }
}

/// Item after item, up to `end` or to `max_matches` matches.
pub open spec fn run_to<M: HashMatchfinder>(
    run: Run,
    h: Seq<u8>,
    end: int,
    max_matches: int,
    nice: int,
) -> Run
    decreases
            (if run.next < end {
                end - run.next
            } else {
                0
            }),
{
    if run.next >= end || run.matches >= max_matches {
        run
    } else {
        run_to::<M>(step::<M>(run, h, nice), h, end, max_matches, nice)
    }
}

/// A number of items.
pub open spec fn steps<M: HashMatchfinder>(run: Run, h: Seq<u8>, nice: int, n: nat) -> Run
    decreases n,
{
    if n == 0 {
        run
    } else {
        step::<M>(steps::<M>(run, h, nice, (n - 1) as nat), h, nice)
    }
}

/// The parse is that of some number of items.
#[verifier::opaque]
pub open spec fn some_steps<M: HashMatchfinder>(
    start: Run,
    h: Seq<u8>,
    nice: int,
    run: Run,
) -> bool {
    exists|n: nat| run == #[trigger] steps::<M>(start, h, nice, n)
}

/// Item after item, up to `end`.
#[verifier::opaque]
pub open spec fn whole_run<M: HashMatchfinder>(start: Run, h: Seq<u8>, end: int, nice: int) -> Run {
    run_to::<M>(start, h, end, 1 + h.len() as int, nice)
}

/// The beginning of a block, before its first item.
pub open spec fn block_start<M: HashMatchfinder>(
    tab: Seq<i16>,
    base: int,
    h: Seq<u8>,
    begin: int,
    blind: bool,
) -> Run {
    let hash = if blind {
        0
    } else {
        hash_or_0::<M>(h, begin)
    };
    Run { its: Seq::empty(), matches: 0, next: begin, memory: Memory { tab, base, hash } }
}

/// The parse of the block that begins at `begin`, and what is known behind it.
pub open spec fn block_run<M: HashMatchfinder>(
    tab: Seq<i16>,
    base: int,
    h: Seq<u8>,
    begin: int,
    end: int,
    max_matches: int,
    nice: int,
    blind: bool,
) -> Run {
    run_to::<M>(block_start::<M>(tab, base, h, begin, blind), h, end, max_matches, nice)
}

/// How blocks are made: the table and its base at the beginning, where the first block
/// begins, how long blocks get, which matches are long enough to be taken at once, and
/// whether the first position is looked up under the hash 0.
pub struct Setup {
    pub tab: Seq<i16>,
    pub base: int,
    pub start: int,
    pub soft_max_len: int,
    pub nice: int,
    pub blind: bool,
}

/// After `k` blocks: the parse of the last of them, where it ends, and what is known there.
pub open spec fn after_blocks<M: HashMatchfinder>(c: Setup, h: Seq<u8>, k: nat) -> Run
    decreases k,
{
    if k == 0 {
        Run {
            its: Seq::empty(),
            matches: 0,
            next: c.start,
            memory: Memory { tab: c.tab, base: c.base, hash: 0 },
        }
    } else {
        let run = after_blocks::<M>(c, h, (k - 1) as nat);
        block_run::<M>(
            run.memory.tab,
            run.memory.base,
            h,
            run.next,
            progress::max_block_end(run.next, h.len() as int, c.soft_max_len),
            8192,
            c.nice,
            c.blind && k == 1,
        )
    }
}

/// What the symbols of the first `k` blocks take in bits, with codes of these lengths.
pub open spec fn blocks_cost<M: HashMatchfinder>(
    c: Setup,
    h: Seq<u8>,
    ll: Seq<u8>,
    ol: Seq<u8>,
    k: nat,
) -> int
    decreases k,
{
    if k == 0 {
        0
    } else {
        blocks_cost::<M>(c, h, ll, ol, (k - 1) as nat) + items::cost(
            h,
            after_blocks::<M>(c, h, (k - 1) as nat).next,
            after_blocks::<M>(c, h, k).its,
            ll,
            ol,
        )
    }
}

/// The bits `b1` are the bits `b` and block number `k`, counted from 1, which is not empty
/// and written in the cheapest of three ways.
pub open spec fn block_written<M: HashMatchfinder>(
    c: Setup,
    h: Seq<u8>,
    b: Seq<bool>,
    b1: Seq<bool>,
    last: bool,
    k: nat,
) -> bool {
    let begin = after_blocks::<M>(c, h, (k - 1) as nat).next;
    let run = after_blocks::<M>(c, h, k);
    &&& begin < run.next
    &&& block::coded_as(
        b,
        b1,
        h,
        begin,
        run.next - begin,
        run.its,
        last && run.next == h.len(),
    )
}

/// The bits `b1` are the bits `b0` and `k` blocks, each of them written in the cheapest
/// of three ways.
pub open spec fn blocks_written<M: HashMatchfinder>(
    c: Setup,
    h: Seq<u8>,
    b0: Seq<bool>,
    b1: Seq<bool>,
    last: bool,
    k: nat,
) -> bool
    decreases k,
{
    if k == 0 {
        b1 == b0
    } else {
        exists|b: Seq<bool>|
            {
                &&& blocks_written::<M>(c, h, b0, b, last, (k - 1) as nat)
                &&& #[trigger] block_written::<M>(c, h, b, b1, last, k)
            }
    }
}

/// The bits `b1` are the bits `b0` and the blocks from the beginning to `next`, where the
/// table is `tab` and its base `base`.
#[verifier::opaque]
pub open spec fn written_to<M: HashMatchfinder>(
    c: Setup,
    h: Seq<u8>,
    b0: Seq<bool>,
    b1: Seq<bool>,
    last: bool,
    next: int,
    tab: Seq<i16>,
    base: int,
) -> bool {
    exists|k: nat|
        {
            let run = after_blocks::<M>(c, h, k);
            &&& #[trigger] blocks_written::<M>(c, h, b0, b1, last, k)
            &&& run.next == next
            &&& run.memory.tab == tab
            &&& run.memory.base == base
            &&& k > 0 ==> c.start < next
        }
}

/// The bits `b1` are the bits `b0` and the blocks of all of the data.
pub open spec fn fast_coded<M: HashMatchfinder>(
    c: Setup,
    h: Seq<u8>,
    b0: Seq<bool>,
    b1: Seq<bool>,
    last: bool,
) -> bool {
    exists|tab: Seq<i16>, base: int| #[trigger]
        written_to::<M>(c, h, b0, b1, last, h.len() as int, tab, base)
}

/// What a whole run begins with: an empty table, in which the window before `chunk_start`
/// is entered if there is one and some bytes follow it.
pub open spec fn setup_at<M: HashMatchfinder>(
    h: Seq<u8>,
    chunk_start: int,
    nice: int,
    blind: bool,
) -> Setup {
    let dict = progress::dictionary_at(chunk_start);
    let fresh = Memory {
        tab: Seq::new(M::table_size(), |k: int| MATCHFINDER_INITVAL),
        base: dict,
        hash: hash_or_0::<M>(h, dict),
    };
    let memory = if chunk_start > 0 && h.len() - chunk_start >= 4 {
        M::after_skip(fresh, h, dict, chunk_start - dict)
    } else {
        fresh
    };
    Setup {
        tab: memory.tab,
        base: memory.base,
        start: chunk_start,
        soft_max_len: 65535,
        nice,
        blind: blind && chunk_start == 0,
    }
}

/// The bits `b0` and the first of the blocks take more than `room` bytes.
#[verifier::opaque]
pub open spec fn spills<M: HashMatchfinder>(
    c: Setup,
    h: Seq<u8>,
    b0: Seq<bool>,
    last: bool,
    room: int,
) -> bool {
    exists|b1: Seq<bool>, k: nat|
        #[trigger] blocks_written::<M>(c, h, b0, b1, last, k) && block::too_long(b1, room)
}

/// The bits `b1` are the bits `b0` and the blocks up to `next`, and the lengths are those of
/// the codes for the last of them.
#[verifier::opaque]
pub open spec fn last_codes<M: HashMatchfinder>(
    c: Setup,
    h: Seq<u8>,
    b0: Seq<bool>,
    b1: Seq<bool>,
    last: bool,
    next: int,
    ll: Seq<u8>,
    ol: Seq<u8>,
) -> bool {
    exists|k: nat|
        {
            &&& #[trigger] blocks_written::<M>(c, h, b0, b1, last, k)
            &&& k > 0
            &&& after_blocks::<M>(c, h, k).next == next
            &&& block::codes_for(
                h,
                after_blocks::<M>(c, h, (k - 1) as nat).next,
                after_blocks::<M>(c, h, k).its,
                ll,
                ol,
            )
        }
}

proof fn lemma_written_start<M: HashMatchfinder>(c: Setup, h: Seq<u8>, b: Seq<bool>, last: bool)
    ensures
        written_to::<M>(c, h, b, b, last, c.start, c.tab, c.base),
{
    reveal(written_to);
    assert(blocks_written::<M>(c, h, b, b, last, 0));
}

/// One more block.
proof fn lemma_written_step<M: HashMatchfinder>(
    c: Setup,
    h: Seq<u8>,
    b0: Seq<bool>,
    b: Seq<bool>,
    b1: Seq<bool>,
    last: bool,
    begin: int,
    tab: Seq<i16>,
    base: int,
    ll: Seq<u8>,
    ol: Seq<u8>,
)
    requires
        written_to::<M>(c, h, b0, b, last, begin, tab, base),
        c.start <= begin,
        ({
            let run = block_run::<M>(
                tab,
                base,
                h,
                begin,
                progress::max_block_end(begin, h.len() as int, c.soft_max_len),
                8192,
                c.nice,
                c.blind && begin == c.start,
            );
            &&& begin < run.next
            &&& block::coded_as(
                b,
                b1,
                h,
                begin,
                run.next - begin,
                run.its,
                last && run.next == h.len(),
            )
        }),
    ensures
        ({
            let run = block_run::<M>(
                tab,
                base,
                h,
                begin,
                progress::max_block_end(begin, h.len() as int, c.soft_max_len),
                8192,
                c.nice,
                c.blind && begin == c.start,
            );
            &&& written_to::<M>(c, h, b0, b1, last, run.next, run.memory.tab, run.memory.base)
            &&& block::codes_for(h, begin, run.its, ll, ol) ==> last_codes::<M>(
                c,
                h,
                b0,
                b1,
                last,
                run.next,
                ll,
                ol,
            )
        }),
{
    reveal(written_to);
    reveal(last_codes);
    let k = choose|k: nat|
        {
            let run = after_blocks::<M>(c, h, k);
            &&& #[trigger] blocks_written::<M>(c, h, b0, b, last, k)
            &&& run.next == begin
            &&& run.memory.tab == tab
            &&& run.memory.base == base
            &&& k > 0 ==> c.start < begin
        };
    assert((k + 1 - 1) as nat == k);
    assert(k + 1 == 1 <==> begin == c.start) by {
        if k == 0 {
            assert(after_blocks::<M>(c, h, 0).next == c.start);
        }
    }
    assert(block_written::<M>(c, h, b, b1, last, k + 1));
    assert(blocks_written::<M>(c, h, b0, b1, last, k + 1));
}

/// The hash at a position, or 0 where too few bytes follow.
pub fn first_hash<M: HashMatchfinder>(input: &[u8], pos: usize) -> (r: u32)
    requires
        pos <= input@.len(),
    ensures
        r < pow2(M::order_of()),
        r == hash_or_0::<M>(input@, pos as int),
{
    proof {
        lemma_pow2_pos(M::order_of());
    }
    if input.len() - pos >= 4 {
        hash_at(input, pos, M::hash_order())
    } else {
        0
    }
}

/// Parse a block: matches where the matchfinder finds one, else literals.
///
/// Ends at `max_block_end`, or where `max_seqs` matches have been taken. If `blind` is
/// set, the first position is looked up and entered under the hash 0.
pub fn parse_block<M: HashMatchfinder>(
    mf: &mut M,
    input: &[u8],
    in_base_offset: &mut usize,
    block_begin: usize,
    max_block_end: usize,
    max_seqs: usize,
    nice_match_length: u32,
    blind: bool,
    freqs: &mut DeflateFreqs,
    seqs: &mut Vec<Sequence>,
) -> (next: usize)
    requires
        block_begin < max_block_end <= input@.len(),
        max_block_end - block_begin <= 4190000,
        0 < max_seqs <= 50000,
        old(mf).wf(*old(in_base_offset) as int, block_begin as int),
        *old(in_base_offset) <= block_begin,
    ensures
        block_begin < next <= input@.len(),
        next < max_block_end + 258,
        next >= max_block_end || next - block_begin >= 3 * max_seqs,
        final(mf).wf(*final(in_base_offset) as int, next as int),
        *final(in_base_offset) <= next,
        block::parsed(input@, block_begin as int, next as int, final(seqs)@, *final(freqs)),
        ({
            let run = block_run::<M>(
                old(mf).table(),
                *old(in_base_offset) as int,
                input@,
                block_begin as int,
                max_block_end as int,
                max_seqs as int,
                nice_match_length as int,
                blind,
            );
            &&& sequences::items_of(final(seqs)@) == run.its
            &&& next == run.next
            &&& final(mf).table() == run.memory.tab
            &&& *final(in_base_offset) == run.memory.base
        }),
{
    let ghost h = input@;
    let ghost base = block_begin as int;
    let in_end: usize = input.len();
    let mut in_next: usize = block_begin;
    begin_block(freqs, seqs, Ghost(h), Ghost(base));
    proof {
        lemma_pow2_pos(M::order_of());
    }
    let mut next_hash: u32 = if blind {
        0
    } else {
        first_hash::<M>(input, in_next)
    };
    let ghost goal = block_run::<M>(
        mf.table(),
        *in_base_offset as int,
        h,
        base,
        max_block_end as int,
        max_seqs as int,
        nice_match_length as int,
        blind,
    );
    while in_next < max_block_end && seqs.len() - 1 < max_seqs
        invariant
            goal == run_to::<M>(
                Run {
                    its: sequences::items_of(seqs@),
                    matches: seqs@.len() - 1,
                    next: in_next as int,
                    memory: Memory {
                        tab: mf.table(),
                        base: *in_base_offset as int,
                        hash: next_hash as int,
                    },
                },
                h,
                max_block_end as int,
                max_seqs as int,
                nice_match_length as int,
            ),
            h == input@,
            in_end == h.len(),
            base == block_begin,
            block_begin <= in_next <= in_end,
            block_begin < max_block_end <= in_end,
            max_block_end - block_begin <= 4190000,
            in_next < max_block_end + 258,
            in_next == block_begin ==> seqs@.len() == 1,
            0 < max_seqs <= 50000,
            mf.wf(*in_base_offset as int, in_next as int),
            *in_base_offset <= in_next,
            next_hash < pow2(M::order_of()),
            block::parsed(h, base, in_next as int, seqs@, *freqs),
            in_next - block_begin >= 3 * (seqs@.len() - 1),
        decreases in_end - in_next,
    {
        let max_len: u32 = min_usize(in_end - in_next, 258) as u32;
        let nice_len: u32 = min_u32(max_len, nice_match_length);
        let mut length: u32 = 0;
        let mut offset: u32 = 0;
        if max_len >= 5 {
            let r: (u32, u32) = mf.longest_match(
                input,
                in_base_offset,
                in_next,
                max_len,
                nice_len,
                &mut next_hash,
            );
            length = r.0;
            offset = r.1;
        } else {
            proof {
                mf.lemma_wf_later(*in_base_offset as int, in_next as int, in_next + 1);
            }
        }
        if length > 0 {
            choose_match(freqs, length, offset, seqs, Ghost(h), Ghost(base), Ghost(in_next as int));
            mf.skip_bytes(input, in_base_offset, in_next + 1, length - 1, &mut next_hash);
            in_next = in_next + length as usize;
        } else {
            choose_literal(
                freqs,
                input[in_next],
                seqs,
                Ghost(h),
                Ghost(base),
                Ghost(in_next as int),
            );
            in_next = in_next + 1;
        }
    }
    in_next
}

/// Compress the input from `start` on, block by block. If `blind` is set, the first
/// position is looked up and entered under the hash 0.
pub fn compress_blocks<M: HashMatchfinder, S: Stop>(
    mf: &mut M,
    in_base_offset: &mut usize,
    os: &mut OutputBitstream<'_>,
    input: &[u8],
    start: usize,
    force_nonfinal: bool,
    nice_match_length: u32,
    blind: bool,
    soft_max_len: usize,
    freqs: &mut DeflateFreqs,
    codes: &mut DeflateCodes,
    static_codes: &DeflateCodes,
    seqs: &mut Vec<Sequence>,
    stop: &S,
) -> (r: Result<(), CompressionError>)
    requires
        old(mf).wf(*old(in_base_offset) as int, start as int),
        *old(in_base_offset) <= start,
        old(os).flushed(),
        start < input@.len(),
        10000 <= soft_max_len <= 4185000,
        static_codes.is_static(),
    ensures
        valid(*final(mf)),
        final(os).flushed(),
        final(os).buf@.len() == old(os).buf@.len(),
        final(final(os).buf)@ == final(old(os).buf)@,
        old(codes).bounded() ==> final(codes).bounded(),
        r is Ok ==> progress::progress(
            *old(os),
            *final(os),
            input@,
            start as int,
            input@.len() as int,
            !force_nonfinal,
        ),
        r is Ok ==> progress::tight(
            *old(os),
            *final(os),
            input@,
            start as int,
            input@.len() as int,
        ),
        r is Ok && !final(os).overflow ==> progress::coded(
            old(os).bits(),
            final(os).bits(),
            input@,
            start as int,
            input@.len() as int,
            !force_nonfinal,
        ),
        r is Ok && !final(os).overflow ==> final(mf).wf(
            *final(in_base_offset) as int,
            input@.len() as int,
        ) && *final(in_base_offset) <= input@.len(),
        r is Ok && !final(os).overflow ==> written_to::<M>(
            Setup {
                tab: old(mf).table(),
                base: *old(in_base_offset) as int,
                start: start as int,
                soft_max_len: soft_max_len as int,
                nice: nice_match_length as int,
                blind,
            },
            input@,
            old(os).bits(),
            final(os).bits(),
            !force_nonfinal,
            input@.len() as int,
            final(mf).table(),
            *final(in_base_offset) as int,
        ),
        r is Ok && !final(os).overflow ==> last_codes::<M>(
            Setup {
                tab: old(mf).table(),
                base: *old(in_base_offset) as int,
                start: start as int,
                soft_max_len: soft_max_len as int,
                nice: nice_match_length as int,
                blind,
            },
            input@,
            old(os).bits(),
            final(os).bits(),
            !force_nonfinal,
            input@.len() as int,
            final(codes).lens_litlen@,
            final(codes).lens_offset@,
        ),
        r is Ok && final(os).overflow && !old(os).overflow ==> spills::<M>(
            Setup {
                tab: old(mf).table(),
                base: *old(in_base_offset) as int,
                start: start as int,
                soft_max_len: soft_max_len as int,
                nice: nice_match_length as int,
                blind,
            },
            input@,
            old(os).bits(),
            !force_nonfinal,
            old(os).buf@.len() as int,
        ),
        r matches Err(e) ==> e is Stopped && !stop.never_stops(),
{
    let in_end: usize = input.len();
    let mut in_next: usize = start;
    let ghost o0 = *os;
    let ghost fin = final(os.buf)@;
    let ghost h = input@;
    let ghost c = Setup {
        tab: mf.table(),
        base: *in_base_offset as int,
        start: start as int,
        soft_max_len: soft_max_len as int,
        nice: nice_match_length as int,
        blind,
    };
    proof {
        lemma_written_start::<M>(c, h, o0.bits(), !force_nonfinal);
        progress::lemma_progress_start(o0, h, start as int, !force_nonfinal);
        progress::lemma_coded_start(o0.bits(), h, start as int, !force_nonfinal);
    }
    while in_next < in_end && !os.overflow
        invariant
            h == input@,
            c == (Setup {
                tab: old(mf).table(),
                base: *old(in_base_offset) as int,
                start: start as int,
                soft_max_len: soft_max_len as int,
                nice: nice_match_length as int,
                blind,
            }),
            !os.overflow ==> written_to::<M>(
                c,
                h,
                o0.bits(),
                os.bits(),
                !force_nonfinal,
                in_next as int,
                mf.table(),
                *in_base_offset as int,
            ),
            !os.overflow && in_next > start ==> last_codes::<M>(
                c,
                h,
                o0.bits(),
                os.bits(),
                !force_nonfinal,
                in_next as int,
                codes.lens_litlen@,
                codes.lens_offset@,
            ),
            os.overflow && !o0.overflow ==> spills::<M>(
                c,
                h,
                o0.bits(),
                !force_nonfinal,
                o0.buf@.len() as int,
            ),
            os.buf@.len() == o0.buf@.len(),
            in_end == h.len(),
            start <= in_next <= in_end,
            mf.wf(*in_base_offset as int, in_next as int),
            *in_base_offset <= in_next,
            10000 <= soft_max_len <= 4185000,
            static_codes.is_static(),
            o0 == *old(os),
            fin == final(old(os).buf)@,
            final(os.buf)@ == fin,
            old(codes).bounded() ==> codes.bounded(),
            progress::progress(o0, *os, h, start as int, in_next as int, !force_nonfinal),
            progress::tight(o0, *os, h, start as int, in_next as int),
            !os.overflow ==> progress::coded(
                o0.bits(),
                os.bits(),
                h,
                start as int,
                in_next as int,
                !force_nonfinal,
            ),
        decreases in_end - in_next,
    {
        match stop.check() {
            Ok(_) => {},
            Err(e) => {
                return Err(CompressionError::Stopped(e));
            },
        }
        let block_begin: usize = in_next;
        let ghost tab = mf.table();
        let ghost base = *in_base_offset as int;
        let max_block_end: usize = choose_max_block_end(in_next, in_end, soft_max_len);
        in_next = parse_block(
            mf,
            input,
            in_base_offset,
            block_begin,
            max_block_end,
            FAST_SEQ_STORE_LENGTH,
            nice_match_length,
            blind && block_begin == start,
            freqs,
            seqs,
        );
        let is_final: bool = !force_nonfinal && in_next >= in_end;
        let ghost o1 = *os;
        finish_block(
            os,
            input,
            block_begin,
            in_next - block_begin,
            seqs,
            freqs,
            codes,
            static_codes,
            is_final,
        );
        proof {
            progress::lemma_progress_block(
                o0,
                o1,
                *os,
                h,
                start as int,
                block_begin as int,
                in_next - block_begin,
                sequences::items_of(seqs@),
                !force_nonfinal,
            );
            progress::lemma_tight_block(
                o0,
                o1,
                *os,
                h,
                start as int,
                block_begin as int,
                in_next - block_begin,
                sequences::items_of(seqs@),
                is_final,
            );
            if !os.overflow {
                lemma_written_step::<M>(
                    c,
                    h,
                    o0.bits(),
                    o1.bits(),
                    os.bits(),
                    !force_nonfinal,
                    block_begin as int,
                    tab,
                    base,
                    codes.lens_litlen@,
                    codes.lens_offset@,
                );
                progress::lemma_coded_step(
                    o0.bits(),
                    o1.bits(),
                    os.bits(),
                    h,
                    start as int,
                    block_begin as int,
                    in_next - block_begin,
                    !force_nonfinal,
                );
            } else {
                reveal(block::misfits);
                reveal(written_to);
                reveal(spills);
                let b1 = choose|b1: Seq<bool>|
                    #[trigger] block::coded_with(
                        o1.bits(),
                        b1,
                        h,
                        block_begin as int,
                        in_next - block_begin,
                        sequences::items_of(seqs@),
                        is_final,
                        true,
                    ) && block::too_long(b1, o1.buf@.len() as int);
                lemma_written_step::<M>(
                    c,
                    h,
                    o0.bits(),
                    o1.bits(),
                    b1,
                    !force_nonfinal,
                    block_begin as int,
                    tab,
                    base,
                    codes.lens_litlen@,
                    codes.lens_offset@,
                );
            }
        }
    }
    Ok(())
}

/// Compress the input from `chunk_start` on; what comes before it may be matched. If
/// `blind` is set and nothing comes before it, the first position is looked up and
/// entered under the hash 0.
pub fn compress_hashed<M: HashMatchfinder, S: Stop>(
    mf: &mut M,
    os: &mut OutputBitstream<'_>,
    input: &[u8],
    chunk_start: usize,
    force_nonfinal: bool,
    nice_match_length: u32,
    blind: bool,
    freqs: &mut DeflateFreqs,
    codes: &mut DeflateCodes,
    static_codes: &DeflateCodes,
    seqs: &mut Vec<Sequence>,
    stop: &S,
) -> (r: Result<(), CompressionError>)
    requires
        valid(*old(mf)),
        old(os).flushed(),
        chunk_start < input@.len(),
        static_codes.is_static(),
    ensures
        valid(*final(mf)),
        final(os).flushed(),
        final(os).buf@.len() == old(os).buf@.len(),
        final(final(os).buf)@ == final(old(os).buf)@,
        old(codes).bounded() ==> final(codes).bounded(),
        r is Ok ==> progress::progress(
            *old(os),
            *final(os),
            input@,
            chunk_start as int,
            input@.len() as int,
            !force_nonfinal,
        ),
        r is Ok ==> progress::tight(
            *old(os),
            *final(os),
            input@,
            chunk_start as int,
            input@.len() as int,
        ),
        r is Ok && !final(os).overflow ==> progress::coded(
            old(os).bits(),
            final(os).bits(),
            input@,
            chunk_start as int,
            input@.len() as int,
            !force_nonfinal,
        ),
        r is Ok && !final(os).overflow ==> fast_coded::<M>(
            setup_at::<M>(input@, chunk_start as int, nice_match_length as int, blind),
            input@,
            old(os).bits(),
            final(os).bits(),
            !force_nonfinal,
        ),
        r is Ok && final(os).overflow && !old(os).overflow ==> spills::<M>(
            setup_at::<M>(input@, chunk_start as int, nice_match_length as int, blind),
            input@,
            old(os).bits(),
            !force_nonfinal,
            old(os).buf@.len() as int,
        ),
        r matches Err(e) ==> e is Stopped && !stop.never_stops(),
{
    mf.init();
    let in_end: usize = input.len();
    let dict_start: usize = dictionary_start(chunk_start);
    let mut in_base_offset: usize = dict_start;
    if chunk_start > 0 && in_end - chunk_start >= 4 {
        let mut warmup_hash: u32 = first_hash::<M>(input, dict_start);
        mf.skip_bytes(
            input,
            &mut in_base_offset,
            dict_start,
            (chunk_start - dict_start) as u32,
            &mut warmup_hash,
        );
    }
    assert(mf.wf(in_base_offset as int, chunk_start as int));
    compress_blocks(
        mf,
        &mut in_base_offset,
        os,
        input,
        chunk_start,
        force_nonfinal,
        nice_match_length,
        blind && chunk_start == 0,
        FAST_SOFT_MAX_BLOCK_LENGTH,
        freqs,
        codes,
        static_codes,
        seqs,
        stop,
    )
}

} // verus!
